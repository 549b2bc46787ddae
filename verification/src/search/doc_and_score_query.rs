//! Queries that match given documents with given scores.

use std::sync::Arc;

use vstd::prelude::*;
use vstd::string::*;

use crate::error::LuceneError;
use crate::search::doc_id_set_iterator::{
    is_first_from, DocIdSetIterator, DocIds, NO_MORE_DOCS,
};
use crate::search::explanation::Explanation;
use crate::search::index_searcher::{LeafReaderContext, NumClausesCheckVisitor, ScoreDoc};
use crate::util::sort::{is_stable_order, stable_order};
use crate::util::text::{append_signed, append_unsigned, decimal, decimal_int};

verus! {

/// Documents do not decrease.
pub open spec fn sorted_docs(docs: Seq<i32>) -> bool {
    forall|i: int, k: int| 0 <= i <= k < docs.len() ==> docs[i] <= docs[k]
}

/// Documents increase.
pub open spec fn increasing_docs(docs: Seq<i32>) -> bool {
    forall|i: int, k: int| 0 <= i < k < docs.len() ==> docs[i] < docs[k]
}

/// Whether `p` is the first position from `from` on with a document at or after
/// `target`.
pub open spec fn is_first_at(docs: Seq<i32>, from: int, target: int, p: int) -> bool {
    &&& from <= p <= docs.len()
    &&& forall|i: int| from <= i < p ==> #[trigger] docs[i] < target
    &&& p < docs.len() ==> docs[p] >= target
}

/// Returns the first position from `from` on with a document at or after `target`.
fn first_at(docs: &[i32], from: usize, target: i32) -> (r: usize)
    requires
        sorted_docs(docs@),
        from <= docs@.len(),
    ensures
        is_first_at(docs@, from as int, target as int, r as int),
{
    let mut low: usize = from;
    let mut high: usize = docs.len();
    while low < high
        invariant
            sorted_docs(docs@),
            from <= low <= high <= docs@.len(),
            forall|i: int| from <= i < low ==> #[trigger] docs@[i] < target,
            high < docs@.len() ==> docs@[high as int] >= target,
        decreases high - low,
    {
        let mid: usize = low + (high - low) / 2;
        if docs[mid] < target {
            assert forall|i: int| from <= i < mid + 1 implies #[trigger] docs@[i] < target by {
                assert(docs@[i] <= docs@[mid as int]);
            }
            low = mid + 1;
        } else {
            high = mid;
        }
    }
    low
}

/// Whether `starts` says where the documents of each leaf start among `docs`: a leaf starts
/// at the first document that is not before it, and not before the previous leaf.
pub open spec fn are_segment_starts(
    leaves: Seq<Arc<LeafReaderContext>>,
    docs: Seq<i32>,
    starts: Seq<i32>,
) -> bool {
    &&& starts.len() == leaves.len() + 1
    &&& starts[leaves.len() as int] == docs.len()
    &&& leaves.len() > 0 ==> starts[0] == 0
    &&& forall|i: int|
        0 < i < leaves.len() ==> is_first_at(
            docs,
            starts[i - 1] as int,
            leaves[i].doc_base as int,
            #[trigger] starts[i] as int,
        )
}

/// Returns where the documents of each leaf start among `docs`, and where they end.
pub fn find_segment_starts(leaves: &[Arc<LeafReaderContext>], docs: &[i32]) -> (r: Vec<i32>)
    requires
        sorted_docs(docs@),
        docs@.len() <= i32::MAX,
        leaves@.len() < usize::MAX,
    ensures
        are_segment_starts(leaves@, docs@, r@),
{
    let n: usize = leaves.len();
    let mut starts: Vec<i32> = Vec::with_capacity(n + 1);
    let mut result_index: usize = 0;
    let mut i: usize = 0;
    while i < n
        invariant
            n == leaves@.len(),
            i <= n,
            sorted_docs(docs@),
            docs@.len() <= i32::MAX,
            result_index <= docs@.len(),
            starts@.len() == i,
            i > 0 ==> starts@[0] == 0,
            i > 0 ==> starts@[i - 1] == result_index,
            i == 0 ==> result_index == 0,
            forall|j: int|
                0 < j < i ==> is_first_at(
                    docs@,
                    starts@[j - 1] as int,
                    leaves@[j].doc_base as int,
                    #[trigger] starts@[j] as int,
                ),
        decreases n - i,
    {
        if i > 0 {
            result_index = first_at(docs, result_index, leaves[i].doc_base);
        }
        starts.push(result_index as i32);
        i += 1;
    }
    starts.push(docs.len() as i32);
    starts
}

/// The documents of each leaf are those from its first document up to the first document of
/// the next leaf, when the leaves follow each other.
pub proof fn segments_hold_their_documents(
    leaves: Seq<Arc<LeafReaderContext>>,
    docs: Seq<i32>,
    starts: Seq<i32>,
    leaf: int,
    i: int,
)
    requires
        are_segment_starts(leaves, docs, starts),
        sorted_docs(docs),
        0 <= leaf < leaves.len(),
        leaves[0].doc_base == 0,
        forall|a: int, b: int|
            0 <= a <= b < leaves.len() ==> leaves[a].doc_base <= leaves[b].doc_base,
        forall|k: int| 0 <= k < docs.len() ==> #[trigger] docs[k] >= 0,
        0 <= i < docs.len(),
    ensures
        0 <= starts[leaf] <= starts[leaf + 1] <= docs.len(),
        starts[leaf] <= i < starts[leaf + 1] <==> leaves[leaf].doc_base <= docs[i] && (leaf + 1
            < leaves.len() ==> docs[i] < leaves[leaf + 1].doc_base),
{
    lemma_start(leaves, docs, starts, leaf, i);
    if leaf + 1 < leaves.len() {
        lemma_start(leaves, docs, starts, leaf + 1, i);
        assert(is_first_at(
            docs,
            starts[leaf] as int,
            leaves[leaf + 1].doc_base as int,
            starts[leaf + 1] as int,
        ));
    }
}

proof fn lemma_start(
    leaves: Seq<Arc<LeafReaderContext>>,
    docs: Seq<i32>,
    starts: Seq<i32>,
    leaf: int,
    i: int,
)
    requires
        are_segment_starts(leaves, docs, starts),
        sorted_docs(docs),
        0 <= leaf < leaves.len(),
        leaves[0].doc_base == 0,
        forall|a: int, b: int|
            0 <= a <= b < leaves.len() ==> leaves[a].doc_base <= leaves[b].doc_base,
        forall|k: int| 0 <= k < docs.len() ==> #[trigger] docs[k] >= 0,
        0 <= i < docs.len(),
    ensures
        0 <= starts[leaf] <= docs.len(),
        starts[leaf] <= i <==> leaves[leaf].doc_base <= docs[i],
    decreases leaf,
{
    if leaf > 0 {
        lemma_start(leaves, docs, starts, leaf - 1, i);
        let p = starts[leaf] as int;
        assert(is_first_at(docs, starts[leaf - 1] as int, leaves[leaf].doc_base as int, p));
        assert(leaves[leaf - 1].doc_base <= leaves[leaf].doc_base);
        if i < starts[leaf - 1] {
            assert(docs[i] < leaves[leaf - 1].doc_base);
        } else if i < p {
            assert(docs[i] < leaves[leaf].doc_base);
        } else {
            assert(docs[p] <= docs[i]);
        }
    } else {
        assert(docs[i] >= 0);
    }
}

/// The documents of hits, to sort by.
pub open spec fn doc_keys(hits: Seq<ScoreDoc>) -> Seq<(i64, i64)> {
    hits.map_values(|h: ScoreDoc| (h.doc as i64, 0i64))
}

/// Matches given documents with given scores, which are integers ordered like them.
#[derive(Debug)]
pub struct DocAndScoreQuery {
    /// The documents, in increasing order.
    pub docs: Arc<Vec<i32>>,
    /// The scores of the documents.
    pub scores: Arc<Vec<i32>>,
    /// The greatest score.
    pub max_score: i32,
    /// Where the documents of each leaf start.
    pub segment_starts: Arc<Vec<i32>>,
    /// The number of documents that were looked at.
    pub visited: i64,
    /// Identifies the reader that the documents are from.
    pub context_identity: u64,
}

impl DocAndScoreQuery {
    /// Shows the query to a visitor as a single clause.
    pub fn visit(&self, visitor: &mut NumClausesCheckVisitor)
        requires
            old(visitor).wf(),
        ensures
            final(visitor).wf(),
            final(visitor).limit() == old(visitor).limit(),
            final(visitor).visits() == old(visitor).visits() + 1,
    {
        visitor.count_one();
    }

    /// Renders the query. `score_text` is the rendering of the first score, and
    /// `max_score_text` that of the greatest one.
    pub fn to_query_string(&self, score_text: &str, max_score_text: &str) -> (r: String)
        requires
            self.docs@.len() > 0,
        ensures
            r@ == "DocAndScoreQuery["@ + decimal_int(self.docs@[0] as int) + ",...]["@
                + score_text@ + ",...],"@ + max_score_text@,
    {
        let mut text = "DocAndScoreQuery[".to_owned();
        append_signed(&mut text, self.docs[0] as i64);
        text.append(",...][");
        text.append(score_text);
        text.append(",...],");
        text.append(max_score_text);
        text
    }

    /// Creates a query.
    pub fn new(
        docs: Vec<i32>,
        scores: Vec<i32>,
        max_score: i32,
        segment_starts: Vec<i32>,
        visited: i64,
        context_identity: u64,
    ) -> (r: Self)
        ensures
            r.docs@ == docs@,
            r.scores@ == scores@,
            r.max_score == max_score,
            r.segment_starts@ == segment_starts@,
            r.visited == visited,
            r.context_identity == context_identity,
    {
        DocAndScoreQuery {
            docs: Arc::new(docs),
            scores: Arc::new(scores),
            max_score,
            segment_starts: Arc::new(segment_starts),
            visited,
            context_identity,
        }
    }

    /// Returns the number of documents that were looked at.
    pub fn visited(&self) -> (r: i64)
        ensures
            r == self.visited,
    {
        self.visited
    }

    /// Creates a query for the best hits of a search, the best one first. `total_hits` is
    /// the number of documents that were looked at.
    ///
    /// # Errors
    ///
    /// [`LuceneError::IllegalArgument`] if there are no hits.
    pub fn create_doc_and_score_query(
        leaves: &[Arc<LeafReaderContext>],
        context_identity: u64,
        score_docs: &[ScoreDoc],
        total_hits: i64,
    ) -> (r: Result<Self, LuceneError>)
        requires
            score_docs@.len() <= i32::MAX,
            leaves@.len() < usize::MAX,
        ensures
            r is Ok <==> score_docs@.len() > 0,
            r matches Err(e) ==> e.is_illegal_argument(
                "createDocAndScoreQuery requires at least one hit"@,
            ),
            r matches Ok(q) ==> {
                &&& sorted_docs(q.docs@)
                &&& exists|order: Seq<usize>| #[trigger]
                    is_stable_order(
                        doc_keys(score_docs@),
                        score_docs@.len() as int,
                        order,
                    ) && q.docs@ == Seq::new(
                        score_docs@.len(),
                        |i: int| score_docs@[order[i] as int].doc,
                    ) && q.scores@ == Seq::new(
                        score_docs@.len(),
                        |i: int| score_docs@[order[i] as int].score,
                    )
                &&& q.max_score == score_docs@[0].score
                &&& are_segment_starts(leaves@, q.docs@, q.segment_starts@)
                &&& q.visited == total_hits
                &&& q.context_identity == context_identity
            },
    {
        let n: usize = score_docs.len();
        if n == 0 {
            return Err(
                LuceneError::IllegalArgument(
                    "createDocAndScoreQuery requires at least one hit".to_owned(),
                ),
            );
        }
        let max_score: i32 = score_docs[0].score;
        let mut keys: Vec<(i64, i64)> = Vec::with_capacity(n);
        let mut i: usize = 0;
        while i < n
            invariant
                n == score_docs@.len(),
                i <= n,
                keys@ =~= doc_keys(score_docs@).take(i as int),
            decreases n - i,
        {
            keys.push((score_docs[i].doc as i64, 0));
            i += 1;
        }
        assert(keys@ =~= doc_keys(score_docs@));
        let order = stable_order(keys.as_slice());
        let mut docs: Vec<i32> = Vec::with_capacity(n);
        let mut scores: Vec<i32> = Vec::with_capacity(n);
        let mut k: usize = 0;
        while k < n
            invariant
                n == score_docs@.len(),
                k <= n,
                keys@ == doc_keys(score_docs@),
                is_stable_order(keys@, n as int, order@),
                docs@ =~= Seq::new(k as nat, |i: int| score_docs@[order@[i] as int].doc),
                scores@ =~= Seq::new(k as nat, |i: int| score_docs@[order@[i] as int].score),
            decreases n - k,
        {
            assert(order@[k as int] < n);
            docs.push(score_docs[order[k]].doc);
            scores.push(score_docs[order[k]].score);
            k += 1;
        }
        assert(sorted_docs(docs@)) by {
            assert forall|a: int, b: int| 0 <= a <= b < docs@.len() implies docs@[a] <= docs@[b] by {
                assert(order@[a] < n && order@[b] < n);
            }
        }
        let segment_starts = find_segment_starts(leaves, docs.as_slice());
        Ok(
            DocAndScoreQuery::new(
                docs,
                scores,
                max_score,
                segment_starts,
                total_hits,
                context_identity,
            ),
        )
    }

    /// Prepares the query for a search.
    ///
    /// # Errors
    ///
    /// [`LuceneError::IllegalState`] if the documents are from another reader.
    pub fn create_weight(&self, context_identity: u64) -> (r: Result<DocAndScoreWeight, LuceneError>)
        ensures
            r is Ok <==> self.context_identity == context_identity,
            r matches Err(e) ==> e.is_illegal_state(
                "This DocAndScore query was created by a different reader"@,
            ),
            r matches Ok(w) ==> w.docs == self.docs && w.scores == self.scores && w.segment_starts
                == self.segment_starts && w.max_score == self.max_score,
    {
        if context_identity != self.context_identity {
            return Err(
                LuceneError::IllegalState(
                    "This DocAndScore query was created by a different reader".to_owned(),
                ),
            );
        }
        Ok(
            DocAndScoreWeight {
                docs: Arc::clone(&self.docs),
                scores: Arc::clone(&self.scores),
                segment_starts: Arc::clone(&self.segment_starts),
                max_score: self.max_score,
            },
        )
    }

    /// Returns whether two queries match the same documents of one reader with the same
    /// scores.
    pub fn query_eq(&self, other: &Self) -> (r: bool)
        ensures
            r <==> self.context_identity == other.context_identity && self.docs@ == other.docs@
                && self.scores@ == other.scores@,
    {
        self.context_identity == other.context_identity && same_ints(&self.docs, &other.docs)
            && same_ints(&self.scores, &other.scores)
    }
}

/// Returns whether two lists are the same.
fn same_ints(a: &Vec<i32>, b: &Vec<i32>) -> (r: bool)
    ensures
        r <==> a@ == b@,
{
    if a.len() != b.len() {
        return false;
    }
    let mut i: usize = 0;
    while i < a.len()
        invariant
            i <= a@.len(),
            a@.len() == b@.len(),
            forall|j: int| 0 <= j < i ==> #[trigger] a@[j] == b@[j],
        decreases a.len() - i,
    {
        if a[i] != b[i] {
            assert(a@[i as int] != b@[i as int]);
            return false;
        }
        i += 1;
    }
    assert(a@ =~= b@);
    true
}

/// What a [`DocAndScoreQuery`] is prepared as.
#[derive(Debug)]
pub struct DocAndScoreWeight {
    /// The documents, in increasing order.
    pub docs: Arc<Vec<i32>>,
    /// The scores of the documents.
    pub scores: Arc<Vec<i32>>,
    /// Where the documents of each leaf start.
    pub segment_starts: Arc<Vec<i32>>,
    /// The greatest score.
    pub max_score: i32,
}

impl DocAndScoreWeight {
    /// Returns whether the matches in a leaf can be cached, which is so.
    pub fn is_cacheable(&self) -> (r: bool)
        ensures
            r,
    {
        true
    }

    /// Returns the position of a document of a leaf; `None` when it does not match.
    pub fn position(&self, context: &LeafReaderContext, doc: i32) -> (r: Option<usize>)
        requires
            sorted_docs(self.docs@),
            i32::MIN <= doc + context.doc_base <= i32::MAX,
        ensures
            r is Some <==> self.docs@.contains((doc + context.doc_base) as i32),
            r matches Some(p) ==> p < self.docs@.len() && self.docs@[p as int] == doc
                + context.doc_base,
    {
        let target: i32 = doc + context.doc_base;
        let p: usize = first_at(self.docs.as_slice(), 0, target);
        if p < self.docs.len() && self.docs[p] == target {
            assert(self.docs@.contains(target));
            Some(p)
        } else {
            proof {
                if self.docs@.contains(target) {
                    let i = choose|i: int| 0 <= i < self.docs@.len() && self.docs@[i] == target;
                    if i > p {
                        assert(self.docs@[p as int] <= self.docs@[i]);
                    }
                }
            }
            None
        }
    }

    /// Explains why a document matches with the given score, or does not match without one.
    pub fn explain(&self, score: Option<i32>) -> (r: Explanation)
        ensures
            r.details@.len() == 0,
            match score {
                Some(value) => r.is_match && r.value == value && r.description@ == "within top "@
                    + decimal(self.docs@.len()) + " docs"@,
                None => !r.is_match && r.value == 0 && r.description@ == "not in top "@ + decimal(
                    self.docs@.len(),
                ) + " docs"@,
            },
    {
        match score {
            Some(value) => {
                let mut text = "within top ".to_owned();
                append_unsigned(&mut text, self.docs.len() as u64);
                text.append(" docs");
                Explanation::matched(value, text, Vec::new())
            },
            None => {
                let mut text = "not in top ".to_owned();
                append_unsigned(&mut text, self.docs.len() as u64);
                text.append(" docs");
                Explanation::no_match(text, Vec::new())
            },
        }
    }

    /// Returns the number of matches in the leaf at position `ord`.
    pub fn count(&self, ord: usize) -> (r: i32)
        requires
            ord + 1 < self.segment_starts@.len(),
            0 <= self.segment_starts@[ord as int] <= self.segment_starts@[ord + 1],
        ensures
            r == self.segment_starts@[ord + 1] - self.segment_starts@[ord as int],
    {
        assert(self.segment_starts.len() == self.segment_starts@.len());
        self.segment_starts[ord + 1] - self.segment_starts[ord]
    }

    /// Whether the documents of the leaf at position `ord` are documents of the leaf that
    /// starts at `doc_base`.
    pub open spec fn segment_ok(&self, ord: int, doc_base: int) -> bool {
        &&& 0 <= ord
        &&& ord + 1 < self.segment_starts@.len()
        &&& 0 <= self.segment_starts@[ord] <= self.segment_starts@[ord + 1] <= self.docs@.len()
        &&& self.docs@.len() < i32::MAX
        &&& increasing_docs(self.docs@)
        &&& forall|i: int|
            self.segment_starts@[ord] <= i < self.segment_starts@[ord + 1] ==> 0 <= #[trigger] self.docs@[i]
                - doc_base < NO_MORE_DOCS
    }

    /// Returns an iterator over the matches in the leaf at position `ord`; `None` when there
    /// are none.
    pub fn scorer(&self, ord: usize, doc_base: i32) -> (r: Option<DocAndScoreIterator>)
        requires
            self.segment_ok(ord as int, doc_base as int),
        ensures
            r is None <==> self.segment_starts@[ord as int] == self.segment_starts@[ord + 1],
            r matches Some(it) ==> {
                &&& it.inv()
                &&& it.infallible()
                &&& it.view().doc == -1
                &&& it.view().docs == Set::new(
                    |d: int|
                        exists|i: int|
                            self.segment_starts@[ord as int] <= i < self.segment_starts@[ord + 1]
                                && #[trigger] self.docs@[i] - doc_base == d,
                )
                &&& it.reported_cost() == self.segment_starts@[ord + 1]
                    - self.segment_starts@[ord as int]
                &&& it.documents() == self.docs@
                &&& it.base() == doc_base
            },
    {
        let lower: i32 = self.segment_starts[ord];
        assert(self.segment_starts.len() == self.segment_starts@.len());
        let upper: i32 = self.segment_starts[ord + 1];
        if lower == upper {
            return None;
        }
        let it = DocAndScoreIterator {
            docs: Arc::clone(&self.docs),
            lower,
            upper,
            up_to: -1,
            doc_base,
        };
        proof {
            it.lemma_valid();
        }
        assert(it.view().docs =~= Set::new(
            |d: int|
                exists|i: int|
                    self.segment_starts@[ord as int] <= i < self.segment_starts@[ord + 1]
                        && #[trigger] self.docs@[i] - doc_base == d,
        ));
        Some(it)
    }
}

/// Iterates over given documents of a leaf.
#[derive(Debug)]
pub struct DocAndScoreIterator {
    docs: Arc<Vec<i32>>,
    lower: i32,
    upper: i32,
    up_to: i32,
    doc_base: i32,
}

impl DocAndScoreIterator {
    spec fn doc_at(&self) -> int {
        if self.up_to == -1 {
            -1
        } else if self.up_to >= self.upper {
            NO_MORE_DOCS as int
        } else {
            self.docs@[self.up_to as int] - self.doc_base
        }
    }

    proof fn lemma_valid(&self)
        requires
            self.inv(),
        ensures
            self.view().valid(),
    {
        assert forall|d: int| #[trigger] self.view().docs.contains(d) implies 0 <= d
            < NO_MORE_DOCS by {
            let i = choose|i: int|
                self.lower <= i < self.upper && #[trigger] self.docs@[i] - self.doc_base == d;
            assert(0 <= self.docs@[i] - self.doc_base);
        }
        if self.lower <= self.up_to < self.upper {
            assert(self.docs@[self.up_to as int] - self.doc_base == self.doc_at());
            assert(self.view().docs.contains(self.doc_at()));
        }
    }

    /// The documents of the index, those of other leaves included.
    pub closed spec fn documents(&self) -> Seq<i32> {
        self.docs@
    }

    /// The document of the index that the first document of the leaf is.
    pub closed spec fn base(&self) -> int {
        self.doc_base as int
    }

    /// Returns the position of the current document among all documents, which is that of its
    /// score; -1 before the first document.
    pub fn position(&self) -> (r: i32)
        requires
            self.inv(),
        ensures
            self.view().doc == -1 ==> r == -1,
            0 <= self.view().doc < NO_MORE_DOCS ==> 0 <= r < self.documents().len()
                && self.documents()[r as int] - self.base() == self.view().doc,
    {
        proof {
            if self.lower <= self.up_to < self.upper {
                assert(0 <= self.docs@[self.up_to as int] - self.doc_base);
            }
        }
        self.up_to
    }
}

impl DocIdSetIterator for DocAndScoreIterator {
    closed spec fn view(&self) -> DocIds {
        DocIds {
            docs: Set::new(
                |d: int|
                    exists|i: int|
                        self.lower <= i < self.upper && #[trigger] self.docs@[i] - self.doc_base
                            == d,
            ),
            doc: self.doc_at(),
        }
    }

    closed spec fn inv(&self) -> bool {
        &&& 0 <= self.lower <= self.upper <= self.docs@.len()
        &&& self.upper < i32::MAX
        &&& self.up_to == -1 || self.lower <= self.up_to <= self.upper
        &&& increasing_docs(self.docs@)
        &&& forall|i: int|
            self.lower <= i < self.upper ==> 0 <= #[trigger] self.docs@[i] - self.doc_base
                < NO_MORE_DOCS
    }

    open spec fn infallible(&self) -> bool {
        true
    }

    closed spec fn reported_cost(&self) -> i64 {
        (self.upper - self.lower) as i64
    }

    fn doc_id(&self) -> (r: i32) {
        proof {
            self.lemma_valid();
        }
        if self.up_to == -1 {
            return -1;
        }
        if self.up_to >= self.upper {
            return NO_MORE_DOCS;
        }
        assert(0 <= self.docs@[self.up_to as int] - self.doc_base < NO_MORE_DOCS);
        self.docs[self.up_to as usize] - self.doc_base
    }

    fn next_doc(&mut self) -> (r: Result<i32, LuceneError>)
        ensures
            final(self).documents() == old(self).documents(),
            final(self).base() == old(self).base(),
    {
        let ghost before = *self;
        if self.up_to == -1 {
            self.up_to = self.lower;
        } else {
            self.up_to = self.up_to + 1;
        }
        let doc: i32 = self.doc_id();
        proof {
            self.lemma_valid();
            assert(self.view() =~= before.view().at(doc as int));
            assert forall|d: int|
                #[trigger] before.view().docs.contains(d) && d > before.view().doc implies d
                >= doc by {
                let i = choose|i: int|
                    before.lower <= i < before.upper && #[trigger] before.docs@[i]
                        - before.doc_base == d;
                if before.up_to >= 0 {
                    assert(i > before.up_to);
                }
                if self.up_to < self.upper && i > self.up_to {
                    assert(self.docs@[self.up_to as int] < self.docs@[i]);
                }
            }
            if doc < NO_MORE_DOCS {
                assert(before.view().docs.contains(doc as int));
                if before.up_to >= 0 {
                    assert(before.docs@[before.up_to as int] < before.docs@[self.up_to as int]);
                }
            }
        }
        Ok(doc)
    }

    fn advance(&mut self, target: i32) -> (r: Result<i32, LuceneError>)
        ensures
            final(self).documents() == old(self).documents(),
            final(self).base() == old(self).base(),
    {
        let mut doc: i32 = self.doc_id();
        proof {
            self.lemma_valid();
        }
        while doc < target
            invariant
                old(self).view().valid(),
                self.inv(),
                self.documents() == old(self).documents(),
                self.base() == old(self).base(),
                self.reported_cost() == old(self).reported_cost(),
                self.view() == old(self).view().at(doc as int),
                doc >= old(self).view().doc,
                doc < target || is_first_from(
                    old(self).view().docs,
                    target as int,
                    doc as int,
                ),
            decreases NO_MORE_DOCS - doc,
        {
            doc = self.next_doc()?;
        }
        Ok(doc)
    }

    fn cost(&self) -> (r: i64) {
        (self.upper - self.lower) as i64
    }
}

} // verus!
