//! Changing the scores of the hits of a search by the numbers of a source.

use std::sync::Arc;

use vstd::prelude::*;
use vstd::string::*;

use crate::error::LuceneError;
use crate::search::double_values::{DoubleNumber, DoubleValues, EmptyDoubleValues, ZERO};
use crate::search::double_values_comparator::{always_opens, LeafReaders};
use crate::search::double_values_source::{
    DoubleValuesSource, NumericReader, SourceExplanation, SourceWeight,
};
use crate::search::explanation::Explanation;
use crate::search::index_searcher::{
    is_too_many_nested_clauses, IndexSearcher, LeafReaderContext, ScoreDoc, SearchDefaults,
    SearchableQuery, Weight,
};
use crate::search::query::QueryNode;
use crate::search::source_values::NumericDocValues;
use crate::search::top_docs::TopDocs;
use crate::util::sort::{descending, is_stable_order, stable_before, stable_order};
use crate::util::text::{append_signed, decimal_int};

verus! {

/// Combines the score of a hit with the number that a source has for it.
pub trait DoubleValuesSourceRescorerImpl {
    /// The combination of a score with a number.
    spec fn combined(&self, first_pass_score: i32, value_present: bool, number: DoubleNumber) -> i32;

    /// The name of the combination.
    spec fn name(&self) -> Seq<char>;

    /// Combines a score with a number; `value_present` says whether the source has one.
    fn combine(&self, first_pass_score: i32, value_present: bool, source_value: DoubleNumber) -> (r:
        i32)
        ensures
            r == self.combined(first_pass_score, value_present, source_value),
    ;

    /// Returns the name of the combination.
    fn combiner_name(&self) -> (r: String)
        ensures
            r@ == self.name(),
    ;
}

/// The name of a combination that has no name of its own.
pub fn default_combiner_name() -> (r: String)
    ensures
        r@ == "DoubleValuesSourceRescorer"@,
{
    "DoubleValuesSourceRescorer".to_owned()
}

/// The end (exclusive) of the documents of a leaf.
pub open spec fn leaf_end(leaf: LeafReaderContext) -> int {
    leaf.doc_base + leaf.max_doc
}

/// The leaves follow each other, from document 0 on.
pub open spec fn consecutive(leaves: Seq<Arc<LeafReaderContext>>) -> bool {
    &&& leaves.len() > 0 ==> leaves[0].doc_base == 0
    &&& forall|i: int|
        0 <= i < leaves.len() ==> (#[trigger] leaves[i]).max_doc >= 0 && leaf_end(*leaves[i])
            <= i32::MAX
    &&& forall|i: int, j: int|
        0 <= i && j == i + 1 && j < leaves.len() ==> (#[trigger] leaves[j]).doc_base == leaf_end(
            *#[trigger] leaves[i],
        )
}

/// Whether `leaf` is the leaf that a document is in.
pub open spec fn is_leaf_of(leaves: Seq<Arc<LeafReaderContext>>, doc: int, leaf: int) -> bool {
    0 <= leaf < leaves.len() && leaves[leaf].doc_base <= doc < leaf_end(*leaves[leaf])
}

/// The score of a hit once it is combined with the number that the source has for it.
pub open spec fn rescored<
    Q: QueryNode + SearchableQuery,
    R: NumericReader,
    L: LeafReaders<R>,
    I: DoubleValuesSourceRescorerImpl,
>(
    source: DoubleValuesSource<Q>,
    inner: I,
    readers: L,
    leaves: Seq<Arc<LeafReaderContext>>,
    hit: ScoreDoc,
    leaf: int,
) -> ScoreDoc where R::I: NumericDocValues, Q::W: SourceWeight {
    let ctx = *leaves[leaf];
    let number = source.number_of(readers.reader_of(ctx), ctx, hit.doc - ctx.doc_base);
    ScoreDoc {
        score: match number {
            Some(n) => inner.combined(hit.score, true, n),
            None => inner.combined(hit.score, false, DoubleNumber::Double(ZERO)),
        },
        ..hit
    }
}

/// The keys that sort hits by document.
pub open spec fn doc_keys(hits: Seq<ScoreDoc>) -> Seq<(i64, i64)> {
    Seq::new(hits.len(), |i: int| (hits[i].doc as i64, 0i64))
}

/// The keys that sort hits by score, the greatest first, and then by document.
pub open spec fn best_first_keys(hits: Seq<ScoreDoc>) -> Seq<(i64, i64)> {
    Seq::new(hits.len(), |i: int| ((-1 - hits[i].score) as i64, hits[i].doc as i64))
}

/// Whether `sorted` are the hits in the order of `keys`, the first of them.
pub open spec fn is_sorted_by(
    hits: Seq<ScoreDoc>,
    keys: Seq<(i64, i64)>,
    order: Seq<usize>,
    sorted: Seq<ScoreDoc>,
) -> bool {
    &&& is_stable_order(keys, hits.len() as int, order)
    &&& sorted.len() <= hits.len()
    &&& forall|i: int| 0 <= i < sorted.len() ==> #[trigger] sorted[i] == hits[order[i] as int]
}

/// What is said of a hit that is in no leaf.
pub open spec fn beyond_leaves(doc: int, end: int) -> Seq<char> {
    "hit docId="@ + decimal_int(doc) + "greater than last searcher leaf maxDoc="@ + decimal_int(
        end,
    )
        + " Ensure firstPassTopDocs were produced by the searcher provided to rescore."@
}

/// Returns the hits in the order of their documents.
fn sorted_by_doc(hits: &Vec<ScoreDoc>) -> (r: Vec<ScoreDoc>)
    ensures
        r@.len() == hits@.len(),
        exists|order: Seq<usize>| #[trigger]
            is_sorted_by(hits@, doc_keys(hits@), order, r@),
        forall|i: int, j: int| 0 <= i <= j < r@.len() ==> r@[i].doc <= r@[j].doc,
        forall|i: int| 0 <= i < r@.len() ==> hits@.contains(#[trigger] r@[i]),
{
    let n: usize = hits.len();
    let mut keys: Vec<(i64, i64)> = Vec::with_capacity(n);
    let mut i: usize = 0;
    while i < n
        invariant
            i <= n == hits@.len(),
            keys@ =~= doc_keys(hits@).take(i as int),
        decreases n - i,
    {
        keys.push((hits[i].doc as i64, 0));
        i += 1;
    }
    assert(keys@ =~= doc_keys(hits@));
    let order = stable_order(&keys);
    let mut sorted: Vec<ScoreDoc> = Vec::with_capacity(n);
    let mut j: usize = 0;
    while j < n
        invariant
            j <= n == hits@.len(),
            is_stable_order(doc_keys(hits@), n as int, order@),
            sorted@.len() == j,
            forall|i: int| 0 <= i < j ==> #[trigger] sorted@[i] == hits@[order@[i] as int],
        decreases n - j,
    {
        sorted.push(hits[order[j]]);
        j += 1;
    }
    assert(is_sorted_by(hits@, doc_keys(hits@), order@, sorted@));
    assert forall|i: int, j: int| 0 <= i <= j < n implies sorted@[i].doc <= sorted@[j].doc by {
        if i < j {
            assert(stable_before(
                doc_keys(hits@),
                order@[i] as int,
                order@[j] as int,
            ));
        }
    }
    sorted
}

/// Returns the best hits, the best one first.
fn best_of(hits: &Vec<ScoreDoc>, top_n: i32) -> (r: Vec<ScoreDoc>)
    requires
        top_n >= 0,
    ensures
        r@.len() == if hits@.len() <= top_n {
            hits@.len() as int
        } else {
            top_n as int
        },
        exists|order: Seq<usize>| #[trigger]
            is_sorted_by(hits@, best_first_keys(hits@), order, r@),
{
    let n: usize = hits.len();
    let mut keys: Vec<(i64, i64)> = Vec::with_capacity(n);
    let mut i: usize = 0;
    while i < n
        invariant
            i <= n == hits@.len(),
            keys@ =~= best_first_keys(hits@).take(i as int),
        decreases n - i,
    {
        keys.push((descending(hits[i].score as i64), hits[i].doc as i64));
        i += 1;
    }
    assert(keys@ =~= best_first_keys(hits@));
    let order = stable_order(&keys);
    let mut best: Vec<ScoreDoc> = Vec::new();
    let mut j: usize = 0;
    while j < n && (j as u64) < top_n as u64
        invariant
            j <= n == hits@.len(),
            j <= top_n,
            is_stable_order(best_first_keys(hits@), n as int, order@),
            best@.len() == j,
            forall|i: int| 0 <= i < j ==> #[trigger] best@[i] == hits@[order@[i] as int],
        decreases n - j,
    {
        best.push(hits[order[j]]);
        j += 1;
    }
    assert(is_sorted_by(hits@, best_first_keys(hits@), order@, best@));
    best
}

/// Each hit keeps its document, and its score is combined with its number.
pub open spec fn all_rescored<
    Q: QueryNode + SearchableQuery,
    R: NumericReader,
    L: LeafReaders<R>,
    I: DoubleValuesSourceRescorerImpl,
>(
    source: DoubleValuesSource<Q>,
    inner: I,
    readers: L,
    leaves: Seq<Arc<LeafReaderContext>>,
    hits: Seq<ScoreDoc>,
    changed: Seq<ScoreDoc>,
) -> bool where R::I: NumericDocValues, Q::W: SourceWeight {
    &&& changed.len() == hits.len()
    &&& forall|i: int, leaf: int|
        0 <= i < hits.len() && #[trigger] is_leaf_of(leaves, hits[i].doc as int, leaf)
            ==> #[trigger] changed[i] == rescored::<Q, R, L, I>(
            source,
            inner,
            readers,
            leaves,
            hits[i],
            leaf,
        )
}

/// The hits that `first_pass` is made of, sorted by document, then with other scores, then
/// sorted by score.
pub open spec fn is_rescoring<
    Q: QueryNode + SearchableQuery,
    R: NumericReader,
    L: LeafReaders<R>,
    I: DoubleValuesSourceRescorerImpl,
>(
    source: DoubleValuesSource<Q>,
    inner: I,
    readers: L,
    leaves: Seq<Arc<LeafReaderContext>>,
    first_pass: Seq<ScoreDoc>,
    changed: Seq<ScoreDoc>,
    result: Seq<ScoreDoc>,
) -> bool where R::I: NumericDocValues, Q::W: SourceWeight {
    &&& exists|by_doc: Seq<ScoreDoc>, order: Seq<usize>|
        by_doc.len() == first_pass.len() && #[trigger] is_sorted_by(
            first_pass,
            doc_keys(first_pass),
            order,
            by_doc,
        ) && all_rescored::<Q, R, L, I>(source, inner, readers, leaves, by_doc, changed)
    &&& exists|order: Seq<usize>| #[trigger]
        is_sorted_by(changed, best_first_keys(changed), order, result)
}

/// Whether `result` are the best of the hits once their scores are combined with their
/// numbers.
pub open spec fn are_rescored<
    Q: QueryNode + SearchableQuery,
    R: NumericReader,
    L: LeafReaders<R>,
    I: DoubleValuesSourceRescorerImpl,
>(
    source: DoubleValuesSource<Q>,
    inner: I,
    readers: L,
    leaves: Seq<Arc<LeafReaderContext>>,
    first_pass: Seq<ScoreDoc>,
    result: Seq<ScoreDoc>,
) -> bool where R::I: NumericDocValues, Q::W: SourceWeight {
    exists|changed: Seq<ScoreDoc>| #[trigger]
        is_rescoring::<Q, R, L, I>(source, inner, readers, leaves, first_pass, changed, result)
}

/// Leaves that follow each other come in the order of their documents.
proof fn lemma_leaves_ordered(leaves: Seq<Arc<LeafReaderContext>>, i: int, j: int)
    requires
        consecutive(leaves),
        0 <= i < j < leaves.len(),
    ensures
        leaf_end(*leaves[i]) <= leaves[j].doc_base,
    decreases j - i,
{
    assert(leaves[i + 1].doc_base == leaf_end(*leaves[i]));
    if i + 1 < j {
        lemma_leaves_ordered(leaves, i + 1, j);
        assert(leaves[i + 1].max_doc >= 0);
    }
}

/// A document is in one leaf at most.
pub proof fn leaf_is_unique(leaves: Seq<Arc<LeafReaderContext>>, doc: int, i: int, j: int)
    requires
        consecutive(leaves),
        is_leaf_of(leaves, doc, i),
        is_leaf_of(leaves, doc, j),
    ensures
        i == j,
{
    if i < j {
        lemma_leaves_ordered(leaves, i, j);
    } else if j < i {
        lemma_leaves_ordered(leaves, j, i);
    }
}

/// Whether a document is the least one that is in no leaf.
pub open spec fn is_first_beyond(
    leaves: Seq<Arc<LeafReaderContext>>,
    hits: Seq<ScoreDoc>,
    doc: i32,
) -> bool {
    &&& doc >= leaf_end(*leaves.last())
    &&& exists|i: int| 0 <= i < hits.len() && (#[trigger] hits[i]).doc == doc
    &&& forall|i: int|
        0 <= i < hits.len() && (#[trigger] hits[i]).doc >= leaf_end(*leaves.last()) ==> doc
            <= hits[i].doc
}

/// Every hit has a place among the sorted hits.
proof fn lemma_place(hits: Seq<ScoreDoc>, sorted: Seq<ScoreDoc>, i: int) -> (p: int)
    requires
        sorted.len() == hits.len(),
        exists|order: Seq<usize>| #[trigger] is_sorted_by(hits, doc_keys(hits), order, sorted),
        hits.len() <= usize::MAX,
        0 <= i < hits.len(),
    ensures
        0 <= p < sorted.len(),
        sorted[p] == hits[i],
{
    let order = choose|order: Seq<usize>| #[trigger]
        is_sorted_by(hits, doc_keys(hits), order, sorted);
    assert(order.contains(i as usize));
    let p = choose|p: int| 0 <= p < order.len() && order[p] == i as usize;
    assert(sorted[p] == hits[order[p] as int]);
    p
}

/// The first sorted hit that is in no leaf has the least document of those.
proof fn lemma_first_beyond(
    leaves: Seq<Arc<LeafReaderContext>>,
    hits: Seq<ScoreDoc>,
    sorted: Seq<ScoreDoc>,
    k: int,
)
    requires
        sorted.len() == hits.len(),
        exists|order: Seq<usize>| #[trigger] is_sorted_by(hits, doc_keys(hits), order, sorted),
        hits.len() <= usize::MAX,
        forall|i: int, j: int| 0 <= i <= j < sorted.len() ==> sorted[i].doc <= sorted[j].doc,
        forall|i: int| 0 <= i < sorted.len() ==> hits.contains(#[trigger] sorted[i]),
        0 <= k < sorted.len(),
        k > 0 ==> sorted[k - 1].doc < leaf_end(*leaves.last()),
        sorted[k].doc >= leaf_end(*leaves.last()),
    ensures
        is_first_beyond(leaves, hits, sorted[k].doc),
{
    assert(hits.contains(sorted[k]));
    assert forall|i: int|
        0 <= i < hits.len() && (#[trigger] hits[i]).doc >= leaf_end(
            *leaves.last(),
        ) implies sorted[k].doc <= hits[i].doc by {
        let p = lemma_place(hits, sorted, i);
        if p < k {
            assert(sorted[p].doc <= sorted[k - 1].doc);
        }
    }
}

/// Combines the scores of hits with the numbers of a source, and returns the best of them,
/// the best one first.
///
/// # Errors
///
/// [`LuceneError::IllegalState`] if there is no leaf, or if a hit is in no leaf; whatever
/// reading the source fails with.
pub fn rescore_hits<
    Q: QueryNode + SearchableQuery,
    R: NumericReader,
    L: LeafReaders<R>,
    I: DoubleValuesSourceRescorerImpl,
>(
    source: &DoubleValuesSource<Q>,
    inner: &I,
    readers: &L,
    leaves: &[Arc<LeafReaderContext>],
    first_pass_top_docs: &TopDocs,
    top_n: i32,
) -> (r: Result<TopDocs, LuceneError>) where R::I: NumericDocValues, Q::W: SourceWeight
    requires
        consecutive(leaves@),
        top_n >= 0,
        forall|i: int|
            0 <= i < first_pass_top_docs.score_docs@.len() ==> (
            #[trigger] first_pass_top_docs.score_docs@[i]).doc >= 0,
    ensures
        leaves@.len() == 0 ==> (r matches Err(e) && e.is_illegal_state(
            "the provided searcher has no leaf"@,
        )),
        leaves@.len() > 0 && always_opens(*source, *readers) && !(*source is Scores) ==> {
            let hits = first_pass_top_docs.score_docs@;
            &&& r is Ok <==> forall|i: int|
                0 <= i < hits.len() ==> (#[trigger] hits[i]).doc < leaf_end(*leaves@.last())
            &&& r matches Err(e) ==> exists|doc: i32| #[trigger]
                is_first_beyond(leaves@, hits, doc) && e.is_illegal_state(
                    beyond_leaves(doc as int, leaf_end(*leaves@.last())),
                )
        },
        leaves@.len() > 0 && *source is Scores && first_pass_top_docs.score_docs@.len() > 0 ==> {
            let hits = first_pass_top_docs.score_docs@;
            &&& r is Err
            &&& (forall|i: int|
                0 <= i < hits.len() ==> (#[trigger] hits[i]).doc < leaf_end(*leaves@.last())) ==> (
            r matches Err(e) && e.is_illegal_state("DoubleValuesSource.SCORES requires scores"@))
        },
        r matches Ok(top) ==> {
            let hits = first_pass_top_docs.score_docs@;
            &&& top.total_hits == first_pass_top_docs.total_hits
            &&& top.score_docs@.len() == if hits.len() <= top_n {
                hits.len() as int
            } else {
                top_n as int
            }
            &&& are_rescored::<Q, R, L, I>(
                *source,
                *inner,
                *readers,
                leaves@,
                hits,
                top.score_docs@,
            )
        },
{
    let hits = sorted_by_doc(&first_pass_top_docs.score_docs);
    if leaves.len() == 0 {
        return Err(LuceneError::IllegalState("the provided searcher has no leaf".to_owned()));
    }
    let n: usize = hits.len();
    let last: usize = leaves.len() - 1;
    let mut curr_leaf: usize = 0;
    let mut changed: Vec<ScoreDoc> = Vec::with_capacity(n);
    let mut k: usize = 0;
    while k < n
        invariant
            consecutive(leaves@),
            last == leaves@.len() - 1,
            curr_leaf <= last,
            k <= n == hits@.len(),
            *source is Scores ==> k == 0,
            hits@.len() == first_pass_top_docs.score_docs@.len(),
            forall|i: int, j: int| 0 <= i <= j < n ==> hits@[i].doc <= hits@[j].doc,
            forall|i: int| 0 <= i < n ==> (#[trigger] hits@[i]).doc >= 0,
            forall|i: int|
                0 <= i < n ==> first_pass_top_docs.score_docs@.contains(#[trigger] hits@[i]),
            exists|order: Seq<usize>| #[trigger]
                is_sorted_by(
                    first_pass_top_docs.score_docs@,
                    doc_keys(first_pass_top_docs.score_docs@),
                    order,
                    hits@,
                ),
            k < n ==> leaves@[curr_leaf as int].doc_base <= hits@[k as int].doc,
            k > 0 ==> hits@[k - 1].doc < leaf_end(*leaves@.last()),
            all_rescored::<Q, R, L, I>(
                *source,
                *inner,
                *readers,
                leaves@,
                hits@.take(k as int),
                changed@,
            ),
        decreases n - k,
    {
        let hit = hits[k];
        while hit.doc >= leaves[curr_leaf].doc_base + leaves[curr_leaf].max_doc
            invariant
                consecutive(leaves@),
                last == leaves@.len() - 1,
                curr_leaf <= last,
                k < n == hits@.len(),
                hit == hits@[k as int],
                hits@.len() == first_pass_top_docs.score_docs@.len(),
                forall|i: int, j: int| 0 <= i <= j < n ==> hits@[i].doc <= hits@[j].doc,
                forall|i: int|
                    0 <= i < n ==> first_pass_top_docs.score_docs@.contains(#[trigger] hits@[i]),
                exists|order: Seq<usize>| #[trigger]
                    is_sorted_by(
                        first_pass_top_docs.score_docs@,
                        doc_keys(first_pass_top_docs.score_docs@),
                        order,
                        hits@,
                    ),
                k > 0 ==> hits@[k - 1].doc < leaf_end(*leaves@.last()),
                leaves@[curr_leaf as int].doc_base <= hit.doc,
                leaves@[curr_leaf as int].max_doc >= 0,
                leaf_end(*leaves@[curr_leaf as int]) <= i32::MAX,
            decreases last - curr_leaf,
        {
            if curr_leaf == last {
                let end: i32 = leaves[curr_leaf].doc_base + leaves[curr_leaf].max_doc;
                let mut message = "hit docId=".to_owned();
                append_signed(&mut message, hit.doc as i64);
                message.append("greater than last searcher leaf maxDoc=");
                append_signed(&mut message, end as i64);
                message.append(
                    " Ensure firstPassTopDocs were produced by the searcher provided to rescore.",
                );
                proof {
                    assert(hits.len() == hits@.len());
                    lemma_first_beyond(
                        leaves@,
                        first_pass_top_docs.score_docs@,
                        hits@,
                        k as int,
                    );
                }
                return Err(LuceneError::IllegalState(message));
            }
            curr_leaf += 1;
            assert(leaves@[curr_leaf as int].doc_base == leaf_end(*leaves@[curr_leaf - 1]));
        }
        let ctx = &leaves[curr_leaf];
        let target_doc: i32 = hit.doc - ctx.doc_base;
        let reader = readers.leaf_reader(ctx);
        proof {
            if *source is Field {
                reader.integers_are_ready((*source)->field@);
            }
            assert(always_opens(*source, *readers) ==> source.opens_always(
                readers.reader_of(**ctx),
                **ctx,
            ));
        }
        let scores: Option<EmptyDoubleValues> = None;
        let mut values = source.get_values(&reader, ctx, scores)?;
        let present: bool = values.advance_exact(target_doc)?;
        let number = if present {
            values.double_value()?
        } else {
            DoubleNumber::Double(ZERO)
        };
        let ghost before = changed@;
        let score: i32 = inner.combine(hit.score, present, number);
        changed.push(ScoreDoc { doc: hit.doc, score, shard_index: hit.shard_index });
        proof {
            if curr_leaf < last {
                lemma_leaves_ordered(leaves@, curr_leaf as int, last as int);
                assert(leaves@[last as int].max_doc >= 0);
            }
            assert forall|i: int, leaf: int|
                0 <= i < k + 1 && #[trigger] is_leaf_of(
                    leaves@,
                    hits@.take(k + 1)[i].doc as int,
                    leaf,
                ) implies #[trigger] changed@[i] == rescored::<Q, R, L, I>(
                *source,
                *inner,
                *readers,
                leaves@,
                hits@.take(k + 1)[i],
                leaf,
            ) by {
                if i == k {
                    leaf_is_unique(leaves@, hit.doc as int, leaf, curr_leaf as int);
                } else {
                    assert(hits@.take(k as int)[i] == hits@[i]);
                    assert(is_leaf_of(leaves@, hits@.take(k as int)[i].doc as int, leaf));
                    assert(changed@[i] == before[i]);
                }
            }
        }
        k += 1;
    }
    assert(hits@.take(n as int) =~= hits@);
    assert forall|i: int| 0 <= i < n implies (
    #[trigger] first_pass_top_docs.score_docs@[i]).doc < leaf_end(*leaves@.last()) by {
        let p = lemma_place(first_pass_top_docs.score_docs@, hits@, i);
        assert(hits@[p].doc <= hits@[n - 1].doc);
    }
    let best = best_of(&changed, top_n);
    assert(is_rescoring::<Q, R, L, I>(
        *source,
        *inner,
        *readers,
        leaves@,
        first_pass_top_docs.score_docs@,
        changed@,
        best@,
    ));
    assert(are_rescored::<Q, R, L, I>(
        *source,
        *inner,
        *readers,
        leaves@,
        first_pass_top_docs.score_docs@,
        best@,
    ));
    Ok(TopDocs { total_hits: first_pass_top_docs.total_hits, score_docs: best })
}

/// What the second part of a score is made of.
pub enum SecondPass {
    /// The number that the source has.
    Value {
        /// The number.
        number: DoubleNumber,
        /// Says what it is.
        description: String,
        /// Why the source has it.
        detail: SourceExplanation,
    },
    /// The source has no number.
    NoValue(Explanation),
}

/// Explains a score that is combined with a number.
pub struct RescoreExplanation {
    /// The score.
    pub value: i32,
    /// Says how it was combined.
    pub description: String,
    /// The score of the first search.
    pub first: Explanation,
    /// The number of the source.
    pub second: SecondPass,
}

/// The number that an explanation gives; `None` when the document has none.
pub open spec fn explained_number(e: SourceExplanation) -> Option<DoubleNumber> {
    match e {
        SourceExplanation::Value { number, description } => Some(number),
        SourceExplanation::NoValue { description } => None,
        SourceExplanation::Given(e) => if e.is_match {
            Some(DoubleNumber::Score(e.value))
        } else {
            None
        },
    }
}

fn number_in(e: &SourceExplanation) -> (r: Option<DoubleNumber>)
    ensures
        r == explained_number(*e),
{
    match e {
        SourceExplanation::Value { number, description: _ } => Some(*number),
        SourceExplanation::NoValue { description: _ } => None,
        SourceExplanation::Given(e) => if e.is_match {
            Some(DoubleNumber::Score(e.value))
        } else {
            None
        },
    }
}

/// Returns the leaf that a document is in; `None` when it is in no leaf.
fn find_leaf(leaves: &[Arc<LeafReaderContext>], doc_id: i32) -> (r: Option<usize>)
    requires
        consecutive(leaves@),
    ensures
        r matches Some(i) ==> is_leaf_of(leaves@, doc_id as int, i as int),
        r is None ==> forall|i: int| !is_leaf_of(leaves@, doc_id as int, i),
{
    let mut i: usize = 0;
    while i < leaves.len()
        invariant
            consecutive(leaves@),
            i <= leaves@.len(),
            forall|j: int| 0 <= j < i ==> !is_leaf_of(leaves@, doc_id as int, j),
        decreases leaves.len() - i,
    {
        proof {
            lemma_bases_are_not_negative(leaves@, i as int);
        }
        let base: i32 = leaves[i].doc_base;
        if doc_id >= base && doc_id < base + leaves[i].max_doc {
            return Some(i);
        }
        i += 1;
    }
    None
}

proof fn lemma_bases_are_not_negative(leaves: Seq<Arc<LeafReaderContext>>, i: int)
    requires
        consecutive(leaves),
        0 <= i < leaves.len(),
    ensures
        leaves[i].doc_base >= 0,
        leaves[i].max_doc >= 0,
        leaf_end(*leaves[i]) <= i32::MAX,
{
    assert(leaves[i].max_doc >= 0);
    if i > 0 {
        lemma_leaves_ordered(leaves, 0, i);
        assert(leaves[0].max_doc >= 0);
    }
}

/// Explains the combination of `first` with what the source says of a document.
pub fn explain_combination<I: DoubleValuesSourceRescorerImpl>(
    inner: &I,
    source_text: String,
    first_pass_explanation: Explanation,
    found: SourceExplanation,
) -> (r: RescoreExplanation)
    ensures
        r.first.is_match,
        r.first.value == first_pass_explanation.value,
        r.first.description@ == "first pass score"@,
        r.first.details@ == seq![first_pass_explanation],
        r.description@ == "combined score from firstPass and DoubleValuesSource="@ + source_text@
            + " using "@ + inner.name(),
        match explained_number(found) {
            Some(n) => {
                &&& r.value == inner.combined(first_pass_explanation.value, true, n)
                &&& r.second matches SecondPass::Value { number, description, detail } && number
                    == n && description@ == "value from DoubleValuesSource"@ && detail == found
            },
            None => {
                &&& r.value == inner.combined(
                    first_pass_explanation.value,
                    false,
                    DoubleNumber::Double(ZERO),
                )
                &&& r.second matches SecondPass::NoValue(e) && !e.is_match && e.value == 0
                    && e.description@ == "no value in DoubleValuesSource"@ && e.details@.len() == 0
            },
        },
{
    let first_score: i32 = first_pass_explanation.value;
    let mut details: Vec<Explanation> = Vec::new();
    details.push(first_pass_explanation);
    assert(details@ =~= seq![first_pass_explanation]);
    let first = Explanation::matched(first_score, "first pass score".to_owned(), details);
    let number = number_in(&found);
    let (value, second) = match number {
        Some(n) => (
            inner.combine(first_score, true, n),
            SecondPass::Value {
                number: n,
                description: "value from DoubleValuesSource".to_owned(),
                detail: found,
            },
        ),
        None => (
            inner.combine(first_score, false, DoubleNumber::Double(ZERO)),
            SecondPass::NoValue(
                Explanation::no_match("no value in DoubleValuesSource".to_owned(), Vec::new()),
            ),
        ),
    };
    let mut description = "combined score from firstPass and DoubleValuesSource=".to_owned();
    description.append(source_text.as_str());
    description.append(" using ");
    let name = inner.combiner_name();
    description.append(name.as_str());
    RescoreExplanation { value, description, first, second }
}

/// Changes the scores of the hits of a search by the numbers of a source.
pub struct DoubleValuesSourceRescorer<Q: SearchableQuery, I: DoubleValuesSourceRescorerImpl> {
    /// The source.
    pub source: DoubleValuesSource<Q>,
    /// Combines scores with numbers.
    pub inner: I,
}

impl<
    Q: QueryNode + SearchableQuery,
    I: DoubleValuesSourceRescorerImpl,
> DoubleValuesSourceRescorer<Q, I> where Q::W: SourceWeight {
    /// Creates what changes scores by the numbers of a source.
    pub fn new(values_source: DoubleValuesSource<Q>, inner: I) -> (r: Self)
        ensures
            r.source == values_source,
            r.inner == inner,
    {
        DoubleValuesSourceRescorer { source: values_source, inner }
    }

    /// Returns the source.
    pub fn values_source(&self) -> (r: &DoubleValuesSource<Q>)
        ensures
            *r == self.source,
    {
        &self.source
    }

    /// Returns what combines scores with numbers.
    pub fn combiner(&self) -> (r: &I)
        ensures
            *r == self.inner,
    {
        &self.inner
    }

    /// Combines the scores of the hits of a search with the numbers of the source, and
    /// returns the best `top_n` of them, the best one first.
    ///
    /// # Errors
    ///
    /// As [`DoubleValuesSource::rewrite`] and [`rescore_hits`].
    pub fn rescore<R: NumericReader, L: LeafReaders<R>, S, C, P, T, E>(
        self,
        searcher: &IndexSearcher<S, C, P, T, E>,
        defaults: &SearchDefaults<S, C, P>,
        id: u64,
        readers: &L,
        first_pass_top_docs: &TopDocs,
        top_n: i32,
    ) -> (r: Result<TopDocs, LuceneError>) where R::I: NumericDocValues
        requires
            defaults.max_clause_count >= 0,
            consecutive(searcher.leaf_contexts@),
            top_n >= 0,
            forall|i: int|
                0 <= i < first_pass_top_docs.score_docs@.len() ==> (
                #[trigger] first_pass_top_docs.score_docs@[i]).doc >= 0,
        ensures
            self.source.has_too_many_clauses(defaults.max_clause_count) ==> r is Err,
            self.source matches DoubleValuesSource::Query(query) ==> query.infallible()
                && self.source.has_too_many_clauses(defaults.max_clause_count) ==> (r matches Err(e)
                && is_too_many_nested_clauses(e, defaults.max_clause_count)),
            searcher.leaf_contexts@.len() == 0 ==> r is Err,
            searcher.leaf_contexts@.len() == 0 && self.source.can_rewrite(
                defaults.max_clause_count,
            ) ==> (r matches Err(e) && e.is_illegal_state("the provided searcher has no leaf"@)),
            searcher.leaf_contexts@.len() > 0 && self.source is Scores
                && first_pass_top_docs.score_docs@.len() > 0 ==> r is Err,
            searcher.leaf_contexts@.len() > 0 && self.source.can_rewrite(defaults.max_clause_count)
                && !(self.source is Scores) && (forall|prepared: DoubleValuesSource<Q>| #[trigger]
                self.source.rewrites_to(id, prepared) ==> always_opens(prepared, *readers)) ==> (
            r is Ok <==> forall|i: int|
                0 <= i < first_pass_top_docs.score_docs@.len() ==> (
                #[trigger] first_pass_top_docs.score_docs@[i]).doc < leaf_end(
                    *searcher.leaf_contexts@.last(),
                )),
            r matches Ok(top) ==> exists|prepared: DoubleValuesSource<Q>| #[trigger]
                self.source.rewrites_to(id, prepared) && are_rescored::<Q, R, L, I>(
                    prepared,
                    self.inner,
                    *readers,
                    searcher.leaf_contexts@,
                    first_pass_top_docs.score_docs@,
                    top.score_docs@,
                ),
            r matches Ok(top) ==> {
                &&& top.total_hits == first_pass_top_docs.total_hits
                &&& top.score_docs@.len() == if first_pass_top_docs.score_docs@.len() <= top_n {
                    first_pass_top_docs.score_docs@.len() as int
                } else {
                    top_n as int
                }
            },
    {
        let prepared = self.source.rewrite(searcher, defaults, id)?;
        let leaves = searcher.get_leaf_contexts();
        rescore_hits(&prepared, &self.inner, readers, leaves, first_pass_top_docs, top_n)
    }

    /// Explains the score of a document.
    ///
    /// # Errors
    ///
    /// [`LuceneError::IllegalArgument`] if the document is in no leaf; as
    /// [`DoubleValuesSource::rewrite`] and [`DoubleValuesSource::explain`].
    pub fn explain<R: NumericReader, L: LeafReaders<R>, S, C, P, T, E>(
        self,
        searcher: &IndexSearcher<S, C, P, T, E>,
        defaults: &SearchDefaults<S, C, P>,
        id: u64,
        readers: &L,
        first_pass_explanation: Explanation,
        doc_id: i32,
    ) -> (r: Result<RescoreExplanation, LuceneError>) where R::I: NumericDocValues
        requires
            defaults.max_clause_count >= 0,
            consecutive(searcher.leaf_contexts@),
        ensures
            (forall|i: int| !#[trigger] is_leaf_of(searcher.leaf_contexts@, doc_id as int, i)) ==> (
            r matches Err(e) && e.is_illegal_argument(
                "docId="@ + decimal_int(doc_id as int)
                    + " not found in any leaf in provided searcher"@,
            )),
            self.source.has_too_many_clauses(defaults.max_clause_count) ==> r is Err,
            (exists|i: int| #[trigger] is_leaf_of(searcher.leaf_contexts@, doc_id as int, i)) && (
            self.source matches DoubleValuesSource::Query(query) && query.infallible())
                && self.source.has_too_many_clauses(defaults.max_clause_count) ==> (r matches Err(e)
                && is_too_many_nested_clauses(e, defaults.max_clause_count)),
            (exists|i: int| #[trigger] is_leaf_of(searcher.leaf_contexts@, doc_id as int, i))
                && self.source.can_rewrite(defaults.max_clause_count) && (forall|
                i: int,
                prepared: DoubleValuesSource<Q>,
            |
                #![trigger is_leaf_of(searcher.leaf_contexts@, doc_id as int, i), self.source.rewrites_to(id, prepared)]
                is_leaf_of(searcher.leaf_contexts@, doc_id as int, i) && self.source.rewrites_to(
                    id,
                    prepared,
                ) ==> prepared.explains_always(
                    readers.reader_of(*searcher.leaf_contexts@[i]),
                    *searcher.leaf_contexts@[i],
                    (doc_id - searcher.leaf_contexts@[i].doc_base) as i32,
                )) ==> r is Ok,
            r matches Ok(e) ==> {
                &&& e.first.is_match
                &&& e.first.value == first_pass_explanation.value
                &&& e.first.description@ == "first pass score"@
                &&& e.first.details@ == seq![first_pass_explanation]
            },
            r matches Ok(e) ==> exists|i: int, prepared: DoubleValuesSource<Q>|
                is_leaf_of(searcher.leaf_contexts@, doc_id as int, i) && #[trigger]
                self.source.rewrites_to(id, prepared) && #[trigger]
                self.is_explained::<R, L>(
                    prepared,
                    *readers,
                    *searcher.leaf_contexts@[i],
                    doc_id,
                    first_pass_explanation.value,
                    e,
                ),
    {
        let leaves = searcher.get_leaf_contexts();
        let leaf: usize = match find_leaf(leaves, doc_id) {
            Some(i) => i,
            None => {
                let mut message = "docId=".to_owned();
                append_signed(&mut message, doc_id as i64);
                message.append(" not found in any leaf in provided searcher");
                return Err(LuceneError::IllegalArgument(message));
            },
        };
        proof {
            lemma_bases_are_not_negative(leaves@, leaf as int);
        }
        let ghost whole = self;
        let prepared = self.source.rewrite(searcher, defaults, id)?;
        let ctx = &leaves[leaf];
        let reader = readers.leaf_reader(ctx);
        assert(always_opens(prepared, *readers) ==> prepared.opens_always(
            readers.reader_of(**ctx),
            **ctx,
        ));
        let found = prepared.explain(
            &reader,
            ctx,
            doc_id - ctx.doc_base,
            Explanation::no_match(
                "DoubleValuesSource was not initialized with query scores".to_owned(),
                Vec::new(),
            ),
        )?;
        let text = prepared.to_source_string();
        let e = explain_combination(&self.inner, text, first_pass_explanation, found);
        assert(whole.is_explained::<R, L>(
            prepared,
            *readers,
            **ctx,
            doc_id,
            first_pass_explanation.value,
            e,
        ));
        Ok(e)
    }

    /// The number of a document; that of a query is what the query says of the document.
    pub open spec fn second_number<R: NumericReader, L: LeafReaders<R>>(
        prepared: DoubleValuesSource<Q>,
        readers: L,
        ctx: LeafReaderContext,
        doc: i32,
    ) -> Option<DoubleNumber> where R::I: NumericDocValues {
        match prepared {
            DoubleValuesSource::Scores => None,
            DoubleValuesSource::Weight { weight, id, query } => match weight.explained(ctx, doc) {
                Ok(e) => if e.is_match {
                    Some(DoubleNumber::Score(e.value))
                } else {
                    None
                },
                Err(_) => None,
            },
            _ => prepared.number_of(readers.reader_of(ctx), ctx, doc as int),
        }
    }

    /// Whether the score of a document is explained by the combination with its number.
    pub open spec fn is_explained<R: NumericReader, L: LeafReaders<R>>(
        &self,
        prepared: DoubleValuesSource<Q>,
        readers: L,
        ctx: LeafReaderContext,
        doc_id: i32,
        first_score: i32,
        e: RescoreExplanation,
    ) -> bool where R::I: NumericDocValues {
        &&& e.description@ == "combined score from firstPass and DoubleValuesSource="@
            + prepared.rendered() + " using "@ + self.inner.name()
        &&& match Self::second_number::<R, L>(
            prepared,
            readers,
            ctx,
            (doc_id - ctx.doc_base) as i32,
        ) {
            Some(n) => {
                &&& e.value == self.inner.combined(first_score, true, n)
                &&& e.second matches SecondPass::Value { number, description, detail } && number
                    == n && description@ == "value from DoubleValuesSource"@
            },
            None => {
                &&& e.value == self.inner.combined(first_score, false, DoubleNumber::Double(ZERO))
                &&& e.second matches SecondPass::NoValue(x) && !x.is_match && x.value == 0
                    && x.description@ == "no value in DoubleValuesSource"@ && x.details@.len() == 0
            },
        }
    }
}

/// Whether a hit is not better than another one: it has a lesser score, or the same score
/// and no lesser document.
pub open spec fn not_better_than(a: ScoreDoc, b: ScoreDoc) -> bool {
    a.score < b.score || (a.score == b.score && a.doc >= b.doc)
}

/// Rescored hits come best first, and none that is left out is better than one that comes.
pub proof fn best_hits_come_first(
    hits: Seq<ScoreDoc>,
    order: Seq<usize>,
    sorted: Seq<ScoreDoc>,
    i: int,
    j: int,
)
    requires
        is_sorted_by(hits, best_first_keys(hits), order, sorted),
        0 <= i < sorted.len(),
        i <= j < hits.len(),
    ensures
        j < sorted.len() ==> not_better_than(sorted[j], sorted[i]),
        not_better_than(hits[order[j] as int], sorted[i]),
{
    if i < j {
        assert(stable_before(best_first_keys(hits), order[i] as int, order[j] as int));
    }
}

/// Rescoring gives each hit the score that is combined of its first one and of what the source has
/// for it in its leaf, and keeps the best hits, the best first; of equal ones, the first documents.
/// `leaf` are the leaves that the hits are in. What is found are the new scores of all hits, and
/// which of them each hit of the result is; no hit is taken twice.
pub proof fn rescoring_keeps_the_best<
    Q: QueryNode + SearchableQuery,
    R: NumericReader,
    L: LeafReaders<R>,
    I: DoubleValuesSourceRescorerImpl,
>(
    source: DoubleValuesSource<Q>,
    inner: I,
    readers: L,
    leaves: Seq<Arc<LeafReaderContext>>,
    first_pass: Seq<ScoreDoc>,
    result: Seq<ScoreDoc>,
    leaf: Seq<int>,
) -> (found: (Seq<i32>, Seq<int>)) where R::I: NumericDocValues, Q::W: SourceWeight
    requires
        are_rescored::<Q, R, L, I>(source, inner, readers, leaves, first_pass, result),
        first_pass.len() <= usize::MAX,
        leaf.len() == first_pass.len(),
        forall|m: int|
            0 <= m < first_pass.len() ==> 0 <= (#[trigger] leaf[m]) < leaves.len()
                && leaves[leaf[m]].doc_base <= first_pass[m].doc < leaves[leaf[m]].doc_base
                + leaves[leaf[m]].max_doc,
    ensures
        found.0.len() == first_pass.len(),
        found.1.len() == result.len(),
        found.1.no_duplicates(),
        forall|m: int|
            0 <= m < first_pass.len() ==> #[trigger] found.0[m] == match source.number_of(
                    readers.reader_of(*leaves[leaf[m]]),
                    *leaves[leaf[m]],
                    first_pass[m].doc - leaves[leaf[m]].doc_base,
                ) {
                    Some(n) => inner.combined(first_pass[m].score, true, n),
                    None => inner.combined(
                        first_pass[m].score,
                        false,
                        DoubleNumber::Double(ZERO),
                    ),
                },
        forall|k: int|
            0 <= k < result.len() ==> {
                let m = #[trigger] found.1[k];
                0 <= m < first_pass.len() && result[k] == (ScoreDoc {
                    score: found.0[m],
                    ..first_pass[m]
                })
            },
        forall|i: int, j: int|
            0 <= i < j < result.len() ==> {
                let (a, b) = (#[trigger] result[i], #[trigger] result[j]);
                a.score > b.score || a.score == b.score && a.doc <= b.doc
            },
        forall|k: int, m: int|
            0 <= k < result.len() && 0 <= m < first_pass.len() && !found.1.contains(m) ==> {
                let (a, b) = (#[trigger] result[k], #[trigger] first_pass[m]);
                a.score > found.0[m] || a.score == found.0[m] && a.doc <= b.doc
            },
{
    let changed = choose|changed: Seq<ScoreDoc>| #[trigger]
        is_rescoring::<Q, R, L, I>(source, inner, readers, leaves, first_pass, changed, result);
    let (by_doc, order1) = choose|by_doc: Seq<ScoreDoc>, order: Seq<usize>|
        by_doc.len() == first_pass.len() && #[trigger] is_sorted_by(
            first_pass,
            doc_keys(first_pass),
            order,
            by_doc,
        ) && all_rescored::<Q, R, L, I>(source, inner, readers, leaves, by_doc, changed);
    let order2 = choose|order: Seq<usize>| #[trigger]
        is_sorted_by(changed, best_first_keys(changed), order, result);
    let scores = Seq::new(first_pass.len(), |m: int| match source.number_of(
                    readers.reader_of(*leaves[leaf[m]]),
                    *leaves[leaf[m]],
                    first_pass[m].doc - leaves[leaf[m]].doc_base,
                ) {
                    Some(n) => inner.combined(first_pass[m].score, true, n),
                    None => inner.combined(
                        first_pass[m].score,
                        false,
                        DoubleNumber::Double(ZERO),
                    ),
                });
    let from = Seq::new(result.len(), |k: int| order1[order2[k] as int] as int);
    assert forall|q: int| 0 <= q < changed.len() implies #[trigger] changed[q] == (ScoreDoc {
        score: scores[order1[q] as int],
        ..first_pass[order1[q] as int]
    }) by {
        let m = order1[q] as int;
        assert(by_doc[q] == first_pass[m]);
        assert(0 <= leaf[m] < leaves.len());
        assert(is_leaf_of(leaves, by_doc[q].doc as int, leaf[m]));
    }
    assert forall|k: int| 0 <= k < result.len() implies {
        let m = #[trigger] from[k];
        0 <= m < first_pass.len() && result[k] == (ScoreDoc { score: scores[m], ..first_pass[m] })
    } by {
        assert(result[k] == changed[order2[k] as int]);
    }
    assert(from.no_duplicates()) by {
        assert forall|i: int, j: int|
            0 <= i < from.len() && 0 <= j < from.len() && i != j implies from[i] != from[j] by {
            assert(order2[i] != order2[j]);
            assert(order1[order2[i] as int] != order1[order2[j] as int]);
        }
    }
    assert forall|i: int, j: int| 0 <= i < j < result.len() implies {
        let (a, b) = (#[trigger] result[i], #[trigger] result[j]);
        a.score > b.score || a.score == b.score && a.doc <= b.doc
    } by {
        best_hits_come_first(changed, order2, result, i, j);
    }
    assert forall|k: int, m: int|
        0 <= k < result.len() && 0 <= m < first_pass.len() && !from.contains(m) implies {
        let (a, b) = (#[trigger] result[k], #[trigger] first_pass[m]);
        a.score > scores[m] || a.score == scores[m] && a.doc <= b.doc
    } by {
        assert(order1.contains(m as usize));
        let q = order1.index_of(m as usize);
        assert(order2.contains(q as usize));
        let p = order2.index_of(q as usize);
        if p < result.len() {
            assert(from[p] == m);
        }
        best_hits_come_first(changed, order2, result, k, p);
        assert(changed[q].score == scores[m]);
    }
    (scores, from)
}

} // verus!
