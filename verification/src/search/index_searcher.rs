//! The leaves of an index, their division into slices that are searched
//! independently, and the search over them.

use std::sync::Arc;

use vstd::prelude::*;
use vstd::set_lib::{lemma_int_range, lemma_subset_equality, set_int_range};
use vstd::string::*;

use crate::error::LuceneError;
use crate::search::bulk_scorer::{
    entries_in, is_report, is_report_so_far, reports, reports_are_exact, BulkScorer, ScoreCollector,
};
use crate::search::collector::{docs_in_none, docs_in_split, CollectionError};
use crate::search::dense_conjunction_bulk_scorer::accepts;
use crate::search::doc_id_set_iterator::NO_MORE_DOCS;
use crate::search::explanation::Explanation;
use crate::search::query_timeout::{is_partial_report, may_run_out, score_within, QueryTimeout};
use crate::search::score_mode::ScoreMode;
use crate::search::scorer_supplier::ScorerSupplier;
use crate::util::bits::Bits;
use crate::util::fixed_bit_set::FixedBitSet;
use crate::util::sort::{descending, is_stable_order, reordered, stable_order};
use crate::util::text::{decimal_int, with_number, with_two_numbers};

verus! {

/// The number of hits that are counted exactly.
pub const TOTAL_HITS_THRESHOLD: i32 = 1000;

/// The greatest number of documents of a slice of several leaves.
pub const MAX_DOCS_PER_SLICE: i32 = 250_000;

/// The greatest number of leaves of a slice.
pub const MAX_SEGMENTS_PER_SLICE: usize = 5;

/// The boost that leaves scores as they are: the bits of the single-precision number 1.
pub const UNIT_BOOST: i32 = 0x3f80_0000;

/// The number of clauses that a query may have, unless set otherwise.
pub const DEFAULT_MAX_CLAUSE_COUNT: i32 = 1024;

/// A query has too many clauses.
#[derive(Debug, Clone)]
pub struct TooManyClauses {
    message: String,
    max_clause_count: i32,
}

impl TooManyClauses {
    /// The text of the error.
    pub closed spec fn text(&self) -> Seq<char> {
        self.message@
    }

    /// The limit that was exceeded.
    pub closed spec fn limit(&self) -> i32 {
        self.max_clause_count
    }

    /// Creates the error for the limit `max_clause_count`.
    pub fn new(max_clause_count: i32) -> (r: Self)
        ensures
            r.text() == "maxClauseCount is set to "@ + decimal_int(max_clause_count as int),
            r.limit() == max_clause_count,
    {
        TooManyClauses {
            message: with_number("maxClauseCount is set to ", max_clause_count as i64),
            max_clause_count,
        }
    }

    /// Creates the error with the given text.
    pub fn with_message(message: String, max_clause_count: i32) -> (r: Self)
        ensures
            r.text() == message@,
            r.limit() == max_clause_count,
    {
        TooManyClauses { message, max_clause_count }
    }

    /// Returns the limit that was exceeded.
    pub fn get_max_clause_count(&self) -> (r: i32)
        ensures
            r == self.limit(),
    {
        self.max_clause_count
    }

    /// Returns the text of the error.
    pub fn message(&self) -> (r: &str)
        ensures
            r@ == self.text(),
    {
        self.message.as_str()
    }

    /// Returns the error as one of the library.
    pub fn into_lucene_error(self) -> (r: LuceneError)
        ensures
            r matches LuceneError::ResourceLimit(m) && m@ == self.text(),
    {
        LuceneError::ResourceLimit(self.message)
    }
}

/// A query has too many clauses, its nested ones counted.
#[derive(Debug, Clone)]
pub struct TooManyNestedClauses {
    inner: TooManyClauses,
}

impl TooManyNestedClauses {
    /// The error.
    pub closed spec fn error(&self) -> TooManyClauses {
        self.inner
    }

    /// Creates the error for the limit `max_clause_count`.
    pub fn new(max_clause_count: i32) -> (r: Self)
        ensures
            r.error().text()
                == "Query contains too many nested clauses; maxClauseCount is set to "@
                + decimal_int(max_clause_count as int),
            r.error().limit() == max_clause_count,
    {
        TooManyNestedClauses {
            inner: TooManyClauses::with_message(
                with_number(
                    "Query contains too many nested clauses; maxClauseCount is set to ",
                    max_clause_count as i64,
                ),
                max_clause_count,
            ),
        }
    }

    /// Returns the error.
    pub fn as_too_many_clauses(&self) -> (r: &TooManyClauses)
        ensures
            *r == self.error(),
    {
        &self.inner
    }

    /// Returns the error as one of the library.
    pub fn into_lucene_error(self) -> (r: LuceneError)
        ensures
            r matches LuceneError::ResourceLimit(m) && m@ == self.error().text(),
    {
        self.inner.into_lucene_error()
    }
}

/// A leaf of an index.
#[derive(Debug)]
pub struct LeafReaderContext {
    /// Identifies the leaf.
    pub id: u64,
    /// The document of the index that the first document of the leaf is.
    pub doc_base: i32,
    /// The end (exclusive) of the documents of the leaf.
    pub max_doc: i32,
    /// The documents that are not deleted, where some are.
    pub live_docs: Option<FixedBitSet>,
}

/// A range of the documents of a leaf.
#[derive(Debug)]
pub struct LeafReaderContextPartition {
    /// The first document.
    pub min_doc_id: i32,
    /// The end (exclusive) of the documents; [`NO_MORE_DOCS`] for all that
    /// follow.
    pub max_doc_id: i32,
    /// The leaf.
    pub ctx: Arc<LeafReaderContext>,
    /// The number of documents.
    pub max_docs: i32,
}

/// The text of the error for a range of documents of a leaf; `None` when the range
/// is valid.
pub open spec fn partition_error(min: i32, max: i32, leaf_max_doc: i32) -> Option<Seq<char>> {
    if min >= max {
        Some(
            "minDocId is greater than or equal to maxDocId: ["@ + decimal_int(min as int)
                + "] > ["@ + decimal_int(max as int) + "]"@,
        )
    } else if min < 0 {
        Some("minDocId is lower than 0: ["@ + decimal_int(min as int) + "]"@)
    } else if min >= leaf_max_doc {
        Some(
            "minDocId is greater than than maxDoc: ["@ + decimal_int(min as int) + "] > ["@
                + decimal_int(leaf_max_doc as int) + "]"@,
        )
    } else {
        None
    }
}

impl LeafReaderContextPartition {
    fn new(
        leaf_reader_context: Arc<LeafReaderContext>,
        min_doc_id: i32,
        max_doc_id: i32,
        max_docs: i32,
    ) -> (r: Result<Self, LuceneError>)
        ensures
            match partition_error(min_doc_id, max_doc_id, leaf_reader_context.max_doc) {
                Some(text) => r matches Err(e) && e.is_illegal_argument(text),
                None => r == Ok::<Self, LuceneError>(
                    LeafReaderContextPartition {
                        min_doc_id,
                        max_doc_id,
                        ctx: leaf_reader_context,
                        max_docs,
                    },
                ),
            },
    {
        if min_doc_id >= max_doc_id {
            let mut text = with_two_numbers(
                "minDocId is greater than or equal to maxDocId: [",
                min_doc_id as i64,
                "] > [",
                max_doc_id as i64,
            );
            text.append("]");
            return Err(LuceneError::IllegalArgument(text));
        }
        if min_doc_id < 0 {
            let mut text = with_number("minDocId is lower than 0: [", min_doc_id as i64);
            text.append("]");
            return Err(LuceneError::IllegalArgument(text));
        }
        let leaf_max_doc: i32 = leaf_reader_context.max_doc;
        if min_doc_id >= leaf_max_doc {
            let mut text = with_two_numbers(
                "minDocId is greater than than maxDoc: [",
                min_doc_id as i64,
                "] > [",
                leaf_max_doc as i64,
            );
            text.append("]");
            return Err(LuceneError::IllegalArgument(text));
        }
        Ok(LeafReaderContextPartition { min_doc_id, max_doc_id, ctx: leaf_reader_context, max_docs })
    }

    /// All documents of a leaf.
    ///
    /// # Errors
    ///
    /// [`LuceneError::IllegalArgument`] if the leaf has no documents.
    pub fn create_for_entire_segment(ctx: Arc<LeafReaderContext>) -> (r: Result<Self, LuceneError>)
        ensures
            r is Ok <==> ctx.max_doc > 0,
            r matches Err(e) ==> e.is_illegal_argument(
                partition_error(0, NO_MORE_DOCS, ctx.max_doc)->0,
            ),
            r matches Ok(p) ==> p == entire(ctx),
    {
        let max_docs: i32 = ctx.max_doc;
        Self::new(ctx, 0, NO_MORE_DOCS, max_docs)
    }

    /// The documents `[min_doc_id, max_doc_id)` of a leaf.
    ///
    /// # Errors
    ///
    /// [`LuceneError::IllegalArgument`] if the range is empty, or starts before or
    /// after the documents of the leaf.
    pub fn create_from_and_to(ctx: Arc<LeafReaderContext>, min_doc_id: i32, max_doc_id: i32) -> (r:
        Result<Self, LuceneError>)
        requires
            max_doc_id != NO_MORE_DOCS,
            i32::MIN <= max_doc_id - min_doc_id <= i32::MAX,
        ensures
            match partition_error(min_doc_id, max_doc_id, ctx.max_doc) {
                Some(text) => r matches Err(e) && e.is_illegal_argument(text),
                None => r == Ok::<Self, LuceneError>(part(ctx, min_doc_id, max_doc_id)),
            },
    {
        Self::new(ctx, min_doc_id, max_doc_id, max_doc_id - min_doc_id)
    }

    /// Returns the number of documents.
    pub fn max_docs(&self) -> (r: i32)
        ensures
            r == self.max_docs,
    {
        self.max_docs
    }
}

/// All documents of a leaf.
pub open spec fn entire(ctx: Arc<LeafReaderContext>) -> LeafReaderContextPartition {
    LeafReaderContextPartition {
        min_doc_id: 0,
        max_doc_id: NO_MORE_DOCS,
        ctx,
        max_docs: ctx.max_doc,
    }
}

/// The documents `[min, max)` of a leaf.
pub open spec fn part(ctx: Arc<LeafReaderContext>, min: i32, max: i32) -> LeafReaderContextPartition {
    LeafReaderContextPartition {
        min_doc_id: min,
        max_doc_id: max,
        ctx,
        max_docs: (max - min) as i32,
    }
}

/// Orders ranges by the first document of the index that they hold.
pub open spec fn by_first_doc(ps: Seq<LeafReaderContextPartition>) -> Seq<(i64, i64)> {
    ps.map_values(
        |p: LeafReaderContextPartition| (p.ctx.doc_base as i64, p.min_doc_id as i64),
    )
}

/// The sum of the numbers of documents, which wraps around.
pub open spec fn wrapping_max_docs(ps: Seq<LeafReaderContextPartition>) -> i32
    decreases ps.len(),
{
    if ps.len() == 0 {
        0
    } else {
        wrapping_max_docs(ps.drop_last()).wrapping_add(ps.last().max_docs)
    }
}

/// `sorted` holds the elements of `items` in the order in which a stable sort by
/// `keys` puts them.
pub open spec fn is_sorted_by<T>(items: Seq<T>, keys: Seq<(i64, i64)>, sorted: Seq<T>) -> bool {
    exists|order: Seq<usize>| #[trigger]
        is_stable_order(keys, items.len() as int, order) && sorted == Seq::new(
            items.len(),
            |i: int| items[order[i] as int],
        )
}

/// Ranges of documents that are searched one after the other.
#[derive(Debug)]
pub struct LeafSlice {
    /// The ranges.
    pub partitions: Vec<LeafReaderContextPartition>,
    /// The number of documents.
    pub max_docs: i32,
}

impl LeafSlice {
    /// The slice holds the ranges in the order of their first documents.
    pub open spec fn holds(&self, ps: Seq<LeafReaderContextPartition>) -> bool {
        &&& is_sorted_by(ps, by_first_doc(ps), self.partitions@)
        &&& self.max_docs == wrapping_max_docs(self.partitions@)
    }

    /// Creates a slice of the given ranges, which are put in the order of their
    /// first documents.
    pub fn new(partitions: Vec<LeafReaderContextPartition>) -> (r: Self)
        ensures
            r.holds(partitions@),
    {
        let n: usize = partitions.len();
        let ghost ps = partitions@;
        let mut keys: Vec<(i64, i64)> = Vec::with_capacity(n);
        let mut i: usize = 0;
        while i < n
            invariant
                n == partitions@.len(),
                ps == partitions@,
                i <= n,
                keys@ =~= by_first_doc(ps).take(i as int),
            decreases n - i,
        {
            keys.push((partitions[i].ctx.doc_base as i64, partitions[i].min_doc_id as i64));
            i += 1;
        }
        assert(keys@ =~= by_first_doc(ps));
        let order: Vec<usize> = stable_order(keys.as_slice());
        let partitions: Vec<LeafReaderContextPartition> = reordered(partitions, order.as_slice());
        let mut max_docs: i32 = 0;
        let mut i: usize = 0;
        while i < n
            invariant
                n == partitions@.len(),
                i <= n,
                max_docs == wrapping_max_docs(partitions@.take(i as int)),
            decreases n - i,
        {
            assert(partitions@.take(i + 1).drop_last() =~= partitions@.take(i as int));
            max_docs = max_docs.wrapping_add(partitions[i].max_docs);
            i += 1;
        }
        proof {
            assert(partitions@.take(n as int) =~= partitions@);
            assert(is_stable_order(by_first_doc(ps), ps.len() as int, order@));
        }
        LeafSlice { partitions, max_docs }
    }

    /// Creates a slice of all documents of the given leaves.
    ///
    /// # Errors
    ///
    /// [`LuceneError::IllegalArgument`] for the first leaf without documents.
    pub fn entire_segments(contexts: &[Arc<LeafReaderContext>]) -> (r: Result<Self, LuceneError>)
        ensures
            r is Ok <==> all_have_docs(contexts@),
            r matches Err(e) ==> exists|i: int|
                0 <= i < contexts@.len() && all_have_docs(contexts@.take(i)) && (
                #[trigger] contexts@[i]).max_doc <= 0 && e.is_illegal_argument(
                    partition_error(0, NO_MORE_DOCS, contexts@[i].max_doc)->0,
                ),
            r matches Ok(slice) ==> slice.holds(entire_leaves(contexts@)),
    {
        let mut parts: Vec<LeafReaderContextPartition> = Vec::with_capacity(contexts.len());
        let mut i: usize = 0;
        while i < contexts.len()
            invariant
                i <= contexts@.len(),
                parts@ =~= entire_leaves(contexts@.take(i as int)),
                all_have_docs(contexts@.take(i as int)),
            decreases contexts.len() - i,
        {
            assert(contexts@[i as int].max_doc <= 0 ==> !all_have_docs(contexts@));
            let part = LeafReaderContextPartition::create_for_entire_segment(
                Arc::clone(&contexts[i]),
            )?;
            parts.push(part);
            assert forall|j: int| 0 <= j < i + 1 implies (#[trigger] contexts@.take(
                i + 1,
            )[j]).max_doc > 0 by {
                if j < i {
                    assert(contexts@.take(i as int)[j].max_doc > 0);
                }
            }
            i += 1;
        }
        assert(contexts@.take(i as int) =~= contexts@);
        Ok(Self::new(parts))
    }

    /// Returns the ranges.
    pub fn partitions(&self) -> (r: &[LeafReaderContextPartition])
        ensures
            r@ == self.partitions@,
    {
        self.partitions.as_slice()
    }

    /// Returns the number of documents.
    pub fn get_max_docs(&self) -> (r: i32)
        ensures
            r == self.max_docs,
    {
        self.max_docs
    }
}

/// No leaf has a negative number of documents.
pub open spec fn valid_leaves(leaves: Seq<Arc<LeafReaderContext>>) -> bool {
    forall|i: int| 0 <= i < leaves.len() ==> (#[trigger] leaves[i]).max_doc >= 0
}

/// Every leaf has a document.
pub open spec fn all_have_docs(leaves: Seq<Arc<LeafReaderContext>>) -> bool {
    forall|i: int| 0 <= i < leaves.len() ==> (#[trigger] leaves[i]).max_doc > 0
}

/// All documents of each leaf.
pub open spec fn entire_leaves(leaves: Seq<Arc<LeafReaderContext>>) -> Seq<
    LeafReaderContextPartition,
> {
    leaves.map_values(|ctx: Arc<LeafReaderContext>| entire(ctx))
}

/// Orders leaves by decreasing number of documents.
pub open spec fn by_decreasing_size(leaves: Seq<Arc<LeafReaderContext>>) -> Seq<(i64, i64)> {
    leaves.map_values(|ctx: Arc<LeafReaderContext>| ((-1 - ctx.max_doc) as i64, 0i64))
}

/// Groups of leaves, or of ranges of them. While a group is open, it is the last
/// one.
#[verifier::ext_equal]
pub struct Groups<T> {
    /// The groups.
    pub groups: Seq<Seq<T>>,
    /// Whether the last group takes more.
    pub open: bool,
    /// The number of documents of the open group.
    pub docs: int,
}

/// The groups after adding `item`, which has `size` documents: to the open group, unless it would
/// then hold more than `max_docs` documents, and to a new group otherwise. The group is closed
/// once it holds `max_segments` items.
pub open spec fn with_item<T>(
    g: Groups<T>,
    item: T,
    size: int,
    max_docs: int,
    max_segments: int,
) -> Groups<T> {
    let joins = g.open && g.docs + size <= max_docs;
    let groups = if joins {
        g.groups.update(g.groups.len() - 1, g.groups.last().push(item))
    } else {
        g.groups.push(seq![item])
    };
    if groups.last().len() >= max_segments {
        Groups { groups, open: false, docs: 0 }
    } else {
        Groups {
            groups,
            open: true,
            docs: if joins {
                g.docs + size
            } else {
                size
            },
        }
    }
}

/// The groups of whole leaves: a leaf with more than `max_docs` documents is a
/// group of its own.
pub open spec fn grouped_leaves(
    leaves: Seq<Arc<LeafReaderContext>>,
    max_docs: int,
    max_segments: int,
) -> Groups<Arc<LeafReaderContext>>
    decreases leaves.len(),
{
    if leaves.len() == 0 {
        Groups { groups: Seq::empty(), open: false, docs: 0 }
    } else {
        let before = grouped_leaves(leaves.drop_last(), max_docs, max_segments);
        let leaf = leaves.last();
        if leaf.max_doc > max_docs {
            Groups { groups: before.groups.push(seq![leaf]), ..before }
        } else {
            with_item(before, leaf, leaf.max_doc as int, max_docs, max_segments)
        }
    }
}

/// The number of parts of a leaf with more than `max_docs` documents: as many as
/// it takes, at most five.
pub open spec fn num_parts(max_doc: int, max_docs: int) -> int {
    let parts = (max_doc + max_docs - 1) / max_docs;
    if parts < 5 {
        parts
    } else {
        5
    }
}

/// The parts of a leaf: `n` ranges of the same size, the last of which takes what
/// remains.
pub open spec fn split_leaf(ctx: Arc<LeafReaderContext>, n: int) -> Seq<
    Seq<LeafReaderContextPartition>,
> {
    let size = ctx.max_doc as int / n;
    Seq::new(
        n as nat,
        |k: int|
            seq![
                part(
                    ctx,
                    (k * size) as i32,
                    if k == n - 1 {
                        ctx.max_doc
                    } else {
                        ((k + 1) * size) as i32
                    },
                ),
            ],
    )
}

/// The groups of whole leaves and of the parts of those with more than `max_docs`
/// documents.
pub open spec fn grouped_parts(
    leaves: Seq<Arc<LeafReaderContext>>,
    max_docs: int,
    max_segments: int,
) -> Groups<LeafReaderContextPartition>
    decreases leaves.len(),
{
    if leaves.len() == 0 {
        Groups { groups: Seq::empty(), open: false, docs: 0 }
    } else {
        let before = grouped_parts(leaves.drop_last(), max_docs, max_segments);
        let leaf = leaves.last();
        if leaf.max_doc > max_docs {
            Groups {
                groups: before.groups + split_leaf(
                    leaf,
                    num_parts(leaf.max_doc as int, max_docs),
                ),
                ..before
            }
        } else {
            with_item(before, entire(leaf), leaf.max_doc as int, max_docs, max_segments)
        }
    }
}

/// The slices hold the groups.
pub open spec fn slices_hold(
    slices: Seq<LeafSlice>,
    groups: Seq<Seq<LeafReaderContextPartition>>,
) -> bool {
    &&& slices.len() == groups.len()
    &&& forall|i: int| 0 <= i < slices.len() ==> (#[trigger] slices[i]).holds(groups[i])
}

/// The leaves are in the order of decreasing size.
pub open spec fn is_decreasing(leaves: Seq<Arc<LeafReaderContext>>) -> bool {
    forall|i: int, j: int|
        0 <= i < j < leaves.len() ==> (#[trigger] leaves[i]).max_doc >= (
        #[trigger] leaves[j]).max_doc
}

/// As long as all leaves are too large, no group is open.
proof fn lemma_large_first(
    leaves: Seq<Arc<LeafReaderContext>>,
    k: int,
    max_docs: int,
    max_segments: int,
)
    requires
        0 <= k < leaves.len(),
        is_decreasing(leaves),
        leaves[k].max_doc > max_docs,
    ensures
        !grouped_leaves(leaves.take(k), max_docs, max_segments).open,
        !grouped_parts(leaves.take(k), max_docs, max_segments).open,
    decreases k,
{
    if k > 0 {
        assert(leaves[k - 1].max_doc >= leaves[k].max_doc);
        lemma_large_first(leaves, k - 1, max_docs, max_segments);
        assert(leaves.take(k).drop_last() =~= leaves.take(k - 1));
    }
}

/// The groups as sequences.
spec fn contents<T>(groups: Seq<Vec<T>>) -> Seq<Seq<T>> {
    groups.map_values(|g: Vec<T>| g@)
}

/// Adds `item` to the last group, or to a new one.
fn add_to_group<T>(groups: &mut Vec<Vec<T>>, open: bool, item: T) -> (len: usize)
    requires
        open ==> old(groups)@.len() > 0,
    ensures
        final(groups)@.len() > 0,
        contents(final(groups)@) == if open {
            contents(old(groups)@).update(
                old(groups)@.len() - 1,
                contents(old(groups)@).last().push(item),
            )
        } else {
            contents(old(groups)@).push(seq![item])
        },
        len == contents(final(groups)@).last().len(),
{
    let ghost before = contents(groups@);
    if open {
        let last: usize = groups.len() - 1;
        groups[last].push(item);
        assert(contents(groups@) =~= before.update(last as int, before.last().push(item)));
    } else {
        let mut group: Vec<T> = Vec::new();
        group.push(item);
        assert(group@ =~= seq![item]);
        groups.push(group);
        assert(contents(groups@) =~= before.push(seq![item]));
    }
    groups[groups.len() - 1].len()
}

/// Returns the leaves in the order of decreasing size.
fn sorted_by_size(leaves: &[Arc<LeafReaderContext>]) -> (r: Vec<Arc<LeafReaderContext>>)
    ensures
        is_sorted_by(leaves@, by_decreasing_size(leaves@), r@),
        is_decreasing(r@),
        all_have_docs(r@) == all_have_docs(leaves@),
        forall|i: int| 0 <= i < r@.len() ==> leaves@.contains(#[trigger] r@[i]),
{
    let n: usize = leaves.len();
    let mut copy: Vec<Arc<LeafReaderContext>> = Vec::with_capacity(n);
    let mut keys: Vec<(i64, i64)> = Vec::with_capacity(n);
    let mut i: usize = 0;
    while i < n
        invariant
            n == leaves@.len(),
            i <= n,
            copy@ =~= leaves@.take(i as int),
            keys@ =~= by_decreasing_size(leaves@).take(i as int),
        decreases n - i,
    {
        copy.push(Arc::clone(&leaves[i]));
        keys.push((descending(leaves[i].max_doc as i64), 0));
        i += 1;
    }
    assert(keys@ =~= by_decreasing_size(leaves@));
    assert(copy@ =~= leaves@);
    let order: Vec<usize> = stable_order(keys.as_slice());
    let r: Vec<Arc<LeafReaderContext>> = reordered(copy, order.as_slice());
    proof {
        assert(is_stable_order(by_decreasing_size(leaves@), leaves@.len() as int, order@));
        assert forall|i: int, j: int| 0 <= i < j < r@.len() implies (#[trigger] r@[i]).max_doc >= (
        #[trigger] r@[j]).max_doc by {
            let a = order@[i];
            let b = order@[j];
            assert(keys@[a as int].0 <= keys@[b as int].0);
        }
        assert forall|i: int| 0 <= i < r@.len() implies leaves@.contains(#[trigger] r@[i]) by {
            assert(leaves@[order@[i] as int] == r@[i]);
        }
        if all_have_docs(r@) {
            assert forall|i: int| 0 <= i < leaves@.len() implies (
            #[trigger] leaves@[i]).max_doc > 0 by {
                assert(order@.contains(i as usize));
                let q = choose|q: int| 0 <= q < order@.len() && order@[q] == i as usize;
                assert(r@[q].max_doc > 0);
            }
        }
        if all_have_docs(leaves@) {
            assert forall|i: int| 0 <= i < r@.len() implies (#[trigger] r@[i]).max_doc > 0 by {
                assert(leaves@[order@[i] as int].max_doc > 0);
            }
        }
    }
    r
}

/// The error for a leaf without documents.
pub open spec fn is_empty_leaf_error(e: LuceneError, leaves: Seq<Arc<LeafReaderContext>>) -> bool {
    exists|i: int|
        0 <= i < leaves.len() && (#[trigger] leaves[i]).max_doc <= 0 && e.is_illegal_argument(
            partition_error(0, NO_MORE_DOCS, leaves[i].max_doc)->0,
        )
}

/// Divides the leaves into slices of whole leaves.
fn slices_of_leaves(
    max_docs_per_slice: i32,
    max_segments_per_slice: usize,
    sorted_leaves: &[Arc<LeafReaderContext>],
) -> (r: Result<Vec<LeafSlice>, LuceneError>)
    requires
        is_decreasing(sorted_leaves@),
        valid_leaves(sorted_leaves@),
    ensures
        r is Ok <==> all_have_docs(sorted_leaves@),
        r matches Err(e) ==> is_empty_leaf_error(e, sorted_leaves@),
        r matches Ok(slices) ==> slices_hold(
            slices@,
            grouped_ranges(
                sorted_leaves@,
                max_docs_per_slice as int,
                max_segments_per_slice as int,
            ),
        ),
{
    let ghost leaves = sorted_leaves@;
    let ghost md = max_docs_per_slice as int;
    let ghost ms = max_segments_per_slice as int;
    let mut groups: Vec<Vec<Arc<LeafReaderContext>>> = Vec::new();
    let mut doc_sum: i64 = 0;
    let mut open: bool = false;
    let mut i: usize = 0;
    assert(contents(groups@) =~= Seq::<Seq<Arc<LeafReaderContext>>>::empty());
    while i < sorted_leaves.len()
        invariant
            leaves == sorted_leaves@,
            is_decreasing(leaves),
            valid_leaves(leaves),
            md == max_docs_per_slice,
            ms == max_segments_per_slice,
            i <= leaves.len(),
            open ==> groups@.len() > 0,
            0 <= doc_sum <= i32::MAX,
            open ==> doc_sum <= md,
            (Groups { groups: contents(groups@), open, docs: doc_sum as int }) == grouped_leaves(
                leaves.take(i as int),
                md,
                ms,
            ),
        decreases sorted_leaves.len() - i,
    {
        let ctx = &sorted_leaves[i];
        proof {
            assert(leaves.take(i + 1).drop_last() =~= leaves.take(i as int));
            assert(leaves.take(i + 1).last() == *ctx);
            if ctx.max_doc > md {
                lemma_large_first(leaves, i as int, md, ms);
            }
        }
        if ctx.max_doc > max_docs_per_slice {
            add_to_group(&mut groups, false, Arc::clone(ctx));
        } else {
            let joins: bool = open && doc_sum + ctx.max_doc as i64 <= max_docs_per_slice as i64;
            let group_len: usize = add_to_group(&mut groups, joins, Arc::clone(ctx));
            if group_len >= max_segments_per_slice {
                open = false;
                doc_sum = 0;
            } else {
                doc_sum = if joins {
                    doc_sum + ctx.max_doc as i64
                } else {
                    ctx.max_doc as i64
                };
                open = true;
            }
        }
        i += 1;
    }
    assert(leaves.take(i as int) =~= leaves);
    proof {
        lemma_groups_keep_leaves(leaves, md, ms);
    }
    let mut slices: Vec<LeafSlice> = Vec::with_capacity(groups.len());
    let ghost all = contents(groups@);
    let mut j: usize = 0;
    while j < groups.len()
        invariant
            leaves == sorted_leaves@,
            all == contents(groups@),
            flattened(all) == leaves,
            j <= groups@.len(),
            slices@.len() == j,
            all_have_docs(flattened(all.take(j as int))),
            forall|k: int|
                0 <= k < j ==> (#[trigger] slices@[k]).holds(entire_leaves(all[k])),
        decreases groups.len() - j,
    {
        proof {
            lemma_flattened_split(all, j as int);
            assert(all[j as int] == groups@[j as int]@);
        }
        let r = LeafSlice::entire_segments(groups[j].as_slice());
        proof {
            let first = flattened(all.take(j as int));
            let group = all[j as int];
            let rest = flattened(all.skip(j + 1));
            assert(leaves == first + group + rest);
            if !all_have_docs(group) {
                let q = choose|q: int|
                    0 <= q < group.len() && !((#[trigger] group[q]).max_doc > 0);
                assert(leaves[first.len() + q] == group[q]);
                assert(!all_have_docs(leaves));
                assert(r is Err);
                let e = r->Err_0;
                let q = choose|q: int|
                    0 <= q < group.len() && all_have_docs(group.take(q)) && (
                    #[trigger] group[q]).max_doc <= 0 && e.is_illegal_argument(
                        partition_error(0, NO_MORE_DOCS, group[q].max_doc)->0,
                    );
                assert(leaves[first.len() + q] == group[q]);
                assert(is_empty_leaf_error(e, leaves));
            } else {
                lemma_flattened_take(all, j as int);
                let next = flattened(all.take(j + 1));
                assert(next == first + group);
                assert forall|k: int| 0 <= k < next.len() implies (
                #[trigger] next[k]).max_doc > 0 by {
                    if k < first.len() {
                        assert(first[k].max_doc > 0);
                    } else {
                        assert(group[k - first.len()].max_doc > 0);
                    }
                }
            }
        }
        slices.push(r?);
        j += 1;
    }
    assert(all.take(j as int) =~= all);
    Ok(slices)
}

/// The parts of a leaf cover its documents without gaps: the first one starts with
/// the first document, each following one where the one before it ends, and the
/// last one ends with the last document; none is empty.
pub proof fn split_covers_leaf(ctx: Arc<LeafReaderContext>, max_docs: int, k: int)
    requires
        0 < max_docs < ctx.max_doc,
        0 <= k < num_parts(ctx.max_doc as int, max_docs),
    ensures
        ({
            let n = num_parts(ctx.max_doc as int, max_docs);
            let parts = split_leaf(ctx, n);
            &&& 2 <= n <= 5
            &&& parts.len() == n
            &&& parts[k].len() == 1
            &&& parts[k][0].min_doc_id < parts[k][0].max_doc_id <= ctx.max_doc
            &&& parts[k][0].max_docs == parts[k][0].max_doc_id - parts[k][0].min_doc_id
            &&& k == 0 ==> parts[k][0].min_doc_id == 0
            &&& k > 0 ==> parts[k][0].min_doc_id == parts[k - 1][0].max_doc_id
            &&& k == n - 1 ==> parts[k][0].max_doc_id == ctx.max_doc
        }),
{
    let m = ctx.max_doc as int;
    let n = num_parts(m, max_docs);
    lemma_num_parts(m, max_docs);
    let size = m / n;
    assert(size >= 1 && n * size <= m) by (nonlinear_arith)
        requires
            size == m / n,
            2 <= n <= 5,
            n <= m,
    ;
    assert(k * size >= 0 && (k + 1) * size == k * size + size && (k + 1) * size <= n * size && (k
        - 1 + 1) * size == k * size) by (nonlinear_arith)
        requires
            0 <= k < n,
            size >= 1,
    ;
}

proof fn lemma_num_parts(m: int, max_docs: int)
    requires
        0 < max_docs < m,
    ensures
        2 <= num_parts(m, max_docs) <= 5,
        num_parts(m, max_docs) <= m,
{
    let parts = (m + max_docs - 1) / max_docs;
    assert(parts >= 2 && parts <= m) by (nonlinear_arith)
        requires
            0 < max_docs < m,
            parts == (m + max_docs - 1) / max_docs,
    ;
}

/// Divides the leaves into slices of whole leaves and of parts of those that are
/// too large.
fn slices_with_segment_partitions(
    max_docs_per_slice: i32,
    max_segments_per_slice: usize,
    sorted_leaves: &[Arc<LeafReaderContext>],
) -> (r: Result<Vec<LeafSlice>, LuceneError>)
    requires
        max_docs_per_slice > 0,
        is_decreasing(sorted_leaves@),
        valid_leaves(sorted_leaves@),
        forall|i: int|
            0 <= i < sorted_leaves@.len() ==> (#[trigger] sorted_leaves@[i]).max_doc < NO_MORE_DOCS,
    ensures
        r is Ok <==> all_have_docs(sorted_leaves@),
        r matches Err(e) ==> is_empty_leaf_error(e, sorted_leaves@),
        r matches Ok(slices) ==> slices_hold(
            slices@,
            grouped_parts(
                sorted_leaves@,
                max_docs_per_slice as int,
                max_segments_per_slice as int,
            ).groups,
        ),
{
    let ghost leaves = sorted_leaves@;
    let ghost md = max_docs_per_slice as int;
    let ghost ms = max_segments_per_slice as int;
    let mut groups: Vec<Vec<LeafReaderContextPartition>> = Vec::new();
    let mut current_slice_num_docs: i64 = 0;
    let mut open: bool = false;
    let mut i: usize = 0;
    assert(contents(groups@) =~= Seq::<Seq<LeafReaderContextPartition>>::empty());
    while i < sorted_leaves.len()
        invariant
            leaves == sorted_leaves@,
            is_decreasing(leaves),
            valid_leaves(leaves),
            forall|i: int|
                0 <= i < sorted_leaves@.len() ==> (#[trigger] sorted_leaves@[i]).max_doc
                    < NO_MORE_DOCS,
            max_docs_per_slice > 0,
            md == max_docs_per_slice,
            ms == max_segments_per_slice,
            i <= leaves.len(),
            open ==> groups@.len() > 0,
            0 <= current_slice_num_docs <= i32::MAX,
            all_have_docs(leaves.take(i as int)),
            (Groups {
                groups: contents(groups@),
                open,
                docs: current_slice_num_docs as int,
            }) == grouped_parts(leaves.take(i as int), md, ms),
        decreases sorted_leaves.len() - i,
    {
        let ctx = &sorted_leaves[i];
        let max_doc: i32 = ctx.max_doc;
        let ghost before = contents(groups@);
        proof {
            assert(leaves.take(i + 1).drop_last() =~= leaves.take(i as int));
            assert(leaves.take(i + 1).last() == *ctx);
            if max_doc > md {
                lemma_large_first(leaves, i as int, md, ms);
            }
        }
        if max_doc > max_docs_per_slice {
            push_parts(&mut groups, ctx, max_docs_per_slice)?;
        } else {
            assert(max_doc <= 0 ==> !all_have_docs(leaves) && leaves[i as int].max_doc <= 0);
            let whole = LeafReaderContextPartition::create_for_entire_segment(Arc::clone(ctx))?;
            let joins: bool = open && current_slice_num_docs + max_doc as i64
                <= max_docs_per_slice as i64;
            let group_len: usize = add_to_group(&mut groups, joins, whole);
            if group_len >= max_segments_per_slice {
                open = false;
                current_slice_num_docs = 0;
            } else {
                current_slice_num_docs = if joins {
                    current_slice_num_docs + max_doc as i64
                } else {
                    max_doc as i64
                };
                open = true;
            }
        }
        proof {
            assert forall|j: int| 0 <= j < i + 1 implies (#[trigger] leaves.take(i + 1)[j]).max_doc
                > 0 by {
                if j < i {
                    assert(leaves.take(i as int)[j].max_doc > 0);
                }
            }
        }
        i += 1;
    }
    assert(leaves.take(i as int) =~= leaves);
    let ghost all = contents(groups@);
    let mut slices: Vec<LeafSlice> = Vec::with_capacity(groups.len());
    for group in it: groups
        invariant
            all == contents(it.seq()),
            slices@.len() == it.index(),
            forall|k: int| 0 <= k < it.index() ==> (#[trigger] slices@[k]).holds(all[k]),
    {
        slices.push(LeafSlice::new(group));
    }
    Ok(slices)
}

/// Appends the parts of a leaf, each as a group of its own.
fn push_parts(
    groups: &mut Vec<Vec<LeafReaderContextPartition>>,
    ctx: &Arc<LeafReaderContext>,
    max_docs_per_slice: i32,
) -> (r: Result<(), LuceneError>)
    requires
        0 < max_docs_per_slice < ctx.max_doc < NO_MORE_DOCS,
    ensures
        r is Ok,
        contents(final(groups)@) == contents(old(groups)@) + split_leaf(
            *ctx,
            num_parts(ctx.max_doc as int, max_docs_per_slice as int),
        ),
{
    let max_doc: i32 = ctx.max_doc;
    let ghost m = max_doc as int;
    let ghost md = max_docs_per_slice as int;
    let ghost n = num_parts(m, md);
    let ghost before = contents(groups@);
    let ghost parts = split_leaf(*ctx, n);
    let whole: i32 = max_doc / max_docs_per_slice;
    let rest: i32 = if max_doc % max_docs_per_slice != 0 {
        1
    } else {
        0
    };
    proof {
        lemma_num_parts(m, md);
        assert((m + md - 1) / md == m / md + if m % md != 0 {
            1int
        } else {
            0
        }) by (nonlinear_arith)
            requires
                m > 0,
                md > 0,
        ;
        assert(m / md <= m) by (nonlinear_arith)
            requires
                m > 0,
                md > 0,
        ;
    }
    let num_slices: i32 = if whole >= 5 || whole + rest > 5 {
        5
    } else {
        whole + rest
    };
    assert(num_slices == n);
    let num_docs: i32 = max_doc / num_slices;
    let ghost size = num_docs as int;
    assert(size >= 1 && n * size <= m) by (nonlinear_arith)
        requires
            size == m / n,
            2 <= n <= 5,
            n <= m,
    ;
    let mut max_doc_id: i32 = num_docs;
    let mut min_doc_id: i32 = 0;
    let mut k: i32 = 0;
    assert(contents(groups@) =~= before + parts.take(0));
    while k < num_slices - 1
        invariant
            0 <= k <= n - 1,
            n == num_slices,
            2 <= n <= 5,
            size == num_docs,
            size >= 1,
            size == ctx.max_doc as int / n,
            n * size <= m,
            m == ctx.max_doc,
            m < NO_MORE_DOCS,
            min_doc_id == k * size,
            max_doc_id == (k + 1) * size,
            parts == split_leaf(*ctx, n),
            contents(groups@) == before + parts.take(k as int),
        decreases num_slices - 1 - k,
    {
        proof {
            assert(k * size >= 0 && k * size < (k + 1) * size && (k + 1) * size < n * size && (k
                + 2) * size <= n * size && (k + 2) * size == (k + 1) * size + size)
                by (nonlinear_arith)
                requires
                    0 <= k < n - 1,
                    size >= 1,
            ;
        }
        let piece = LeafReaderContextPartition::create_from_and_to(
            Arc::clone(ctx),
            min_doc_id,
            max_doc_id,
        )?;
        add_to_group(groups, false, piece);
        assert(seq![piece] =~= parts[k as int]);
        assert(contents(groups@) =~= before + parts.take(k + 1));
        min_doc_id = max_doc_id;
        max_doc_id = max_doc_id + num_docs;
        k += 1;
    }
    proof {
        assert(k * size >= 0 && k * size < n * size) by (nonlinear_arith)
            requires
                0 <= k < n,
                size >= 1,
        ;
    }
    let piece = LeafReaderContextPartition::create_from_and_to(
        Arc::clone(ctx),
        min_doc_id,
        max_doc,
    )?;
    add_to_group(groups, false, piece);
    assert(seq![piece] =~= parts[k as int]);
    assert(contents(groups@) =~= before + parts);
    Ok(())
}

/// All elements of the groups, in order.
pub open spec fn flattened<T>(groups: Seq<Seq<T>>) -> Seq<T>
    decreases groups.len(),
{
    if groups.len() == 0 {
        Seq::empty()
    } else {
        flattened(groups.drop_last()) + groups.last()
    }
}

proof fn lemma_flattened_take<T>(groups: Seq<Seq<T>>, j: int)
    requires
        0 <= j < groups.len(),
    ensures
        flattened(groups.take(j + 1)) == flattened(groups.take(j)) + groups[j],
{
    assert(groups.take(j + 1).drop_last() =~= groups.take(j));
}

proof fn lemma_flattened_split<T>(groups: Seq<Seq<T>>, j: int)
    requires
        0 <= j < groups.len(),
    ensures
        flattened(groups) == flattened(groups.take(j)) + groups[j] + flattened(groups.skip(j + 1)),
    decreases groups.len(),
{
    if j == groups.len() - 1 {
        assert(groups.drop_last() =~= groups.take(j));
        assert(groups.skip(j + 1) =~= Seq::<Seq<T>>::empty());
        assert(flattened(groups) =~= flattened(groups.take(j)) + groups[j] + flattened(
            groups.skip(j + 1),
        ));
    } else {
        let rest = groups.drop_last();
        lemma_flattened_split(rest, j);
        assert(rest.take(j) =~= groups.take(j));
        assert(rest.skip(j + 1) =~= groups.skip(j + 1).drop_last());
        assert(groups.skip(j + 1).last() == groups.last());
        assert(flattened(groups) =~= flattened(groups.take(j)) + groups[j] + flattened(
            groups.skip(j + 1),
        ));
    }
}

proof fn lemma_with_item_flattened<T>(
    g: Groups<T>,
    item: T,
    size: int,
    max_docs: int,
    max_segments: int,
)
    requires
        g.open ==> g.groups.len() > 0,
    ensures
        flattened(with_item(g, item, size, max_docs, max_segments).groups) == flattened(
            g.groups,
        ).push(item),
        with_item(g, item, size, max_docs, max_segments).groups.len() > 0,
{
    let next = with_item(g, item, size, max_docs, max_segments).groups;
    if g.open && g.docs + size <= max_docs {
        assert(next.drop_last() =~= g.groups.drop_last());
        assert(flattened(next) =~= flattened(g.groups).push(item));
    } else {
        assert(next.drop_last() =~= g.groups);
        assert(flattened(next) =~= flattened(g.groups).push(item));
    }
}

proof fn lemma_groups_keep_leaves(
    leaves: Seq<Arc<LeafReaderContext>>,
    max_docs: int,
    max_segments: int,
)
    ensures
        flattened(grouped_leaves(leaves, max_docs, max_segments).groups) == leaves,
        grouped_leaves(leaves, max_docs, max_segments).open ==> grouped_leaves(
            leaves,
            max_docs,
            max_segments,
        ).groups.len() > 0,
    decreases leaves.len(),
{
    if leaves.len() > 0 {
        let before = grouped_leaves(leaves.drop_last(), max_docs, max_segments);
        let leaf = leaves.last();
        lemma_groups_keep_leaves(leaves.drop_last(), max_docs, max_segments);
        if leaf.max_doc > max_docs {
            let next = before.groups.push(seq![leaf]);
            assert(next.drop_last() =~= before.groups);
            assert(flattened(next) =~= leaves);
        } else {
            lemma_with_item_flattened(
                before,
                leaf,
                leaf.max_doc as int,
                max_docs,
                max_segments,
            );
            assert(leaves.drop_last().push(leaf) =~= leaves);
        }
    }
}

/// The groups of whole leaves hold every leaf once, in order.
pub proof fn groups_keep_leaves(
    leaves: Seq<Arc<LeafReaderContext>>,
    max_docs: int,
    max_segments: int,
)
    ensures
        flattened(grouped_leaves(leaves, max_docs, max_segments).groups) == leaves,
{
    lemma_groups_keep_leaves(leaves, max_docs, max_segments);
}

/// The ranges that leaves are divided into: the parts of a leaf with more than `max_docs`
/// documents, and any other leaf as a whole.
pub open spec fn pieces(leaves: Seq<Arc<LeafReaderContext>>, max_docs: int) -> Seq<
    LeafReaderContextPartition,
>
    decreases leaves.len(),
{
    if leaves.len() == 0 {
        Seq::empty()
    } else {
        let leaf = leaves.last();
        pieces(leaves.drop_last(), max_docs) + if leaf.max_doc > max_docs {
            flattened(split_leaf(leaf, num_parts(leaf.max_doc as int, max_docs)))
        } else {
            seq![entire(leaf)]
        }
    }
}

proof fn lemma_flattened_join<T>(a: Seq<Seq<T>>, b: Seq<Seq<T>>)
    ensures
        flattened(a + b) == flattened(a) + flattened(b),
    decreases b.len(),
{
    if b.len() == 0 {
        assert(a + b =~= a);
    } else {
        lemma_flattened_join(a, b.drop_last());
        assert((a + b).drop_last() =~= a + b.drop_last());
        assert((a + b).last() == b.last());
    }
    assert(flattened(a + b) =~= flattened(a) + flattened(b));
}

proof fn lemma_groups_keep_pieces(
    leaves: Seq<Arc<LeafReaderContext>>,
    max_docs: int,
    max_segments: int,
)
    ensures
        flattened(grouped_parts(leaves, max_docs, max_segments).groups) == pieces(leaves, max_docs),
        grouped_parts(leaves, max_docs, max_segments).open ==> grouped_parts(
            leaves,
            max_docs,
            max_segments,
        ).groups.len() > 0,
    decreases leaves.len(),
{
    if leaves.len() > 0 {
        let before = grouped_parts(leaves.drop_last(), max_docs, max_segments);
        let leaf = leaves.last();
        lemma_groups_keep_pieces(leaves.drop_last(), max_docs, max_segments);
        if leaf.max_doc > max_docs {
            lemma_flattened_join(
                before.groups,
                split_leaf(leaf, num_parts(leaf.max_doc as int, max_docs)),
            );
        } else {
            lemma_with_item_flattened(
                before,
                entire(leaf),
                leaf.max_doc as int,
                max_docs,
                max_segments,
            );
            assert(pieces(leaves, max_docs) =~= pieces(leaves.drop_last(), max_docs).push(
                entire(leaf),
            ));
        }
    }
}

/// The groups hold every range that leaves are divided into once, in order.
pub proof fn groups_keep_pieces(
    leaves: Seq<Arc<LeafReaderContext>>,
    max_docs: int,
    max_segments: int,
)
    ensures
        flattened(grouped_parts(leaves, max_docs, max_segments).groups) == pieces(leaves, max_docs),
{
    lemma_groups_keep_pieces(leaves, max_docs, max_segments);
}

/// The number of documents of some ranges.
pub open spec fn docs_of_ranges(ps: Seq<LeafReaderContextPartition>) -> int
    decreases ps.len(),
{
    if ps.len() == 0 {
        0
    } else {
        docs_of_ranges(ps.drop_last()) + ps.last().max_docs
    }
}

/// The group keeps to the limits: it has one range or no more than `max_segments`, and no
/// more documents than `max_docs` unless it is a single range of a leaf that is larger than that.
pub open spec fn is_bounded_group(
    group: Seq<LeafReaderContextPartition>,
    max_docs: int,
    max_segments: int,
) -> bool {
    &&& 0 < group.len()
    &&& group.len() <= max_segments || group.len() == 1
    &&& docs_of_ranges(group) <= max_docs || group.len() == 1 && group[0].ctx.max_doc > max_docs
    &&& forall|i: int| 0 <= i < group.len() ==> (#[trigger] group[i]).max_docs >= 0
}

proof fn lemma_docs_of_one(p: LeafReaderContextPartition)
    ensures
        docs_of_ranges(seq![p]) == p.max_docs,
{
    reveal_with_fuel(docs_of_ranges, 2);
    assert(seq![p].drop_last() =~= Seq::empty());
}

/// What is known of groups while they are made.
spec fn groups_stay_bounded(
    g: Groups<LeafReaderContextPartition>,
    max_docs: int,
    max_segments: int,
) -> bool {
    &&& forall|i: int|
        0 <= i < g.groups.len() ==> is_bounded_group(#[trigger] g.groups[i], max_docs, max_segments)
    &&& g.open ==> {
        &&& g.groups.len() > 0
        &&& g.groups.last().len() < max_segments
        &&& docs_of_ranges(g.groups.last()) == g.docs <= max_docs
    }
    &&& !g.open ==> g.docs == 0
}

proof fn lemma_with_item_bounded(
    g: Groups<LeafReaderContextPartition>,
    leaf: Arc<LeafReaderContext>,
    max_docs: int,
    max_segments: int,
)
    requires
        groups_stay_bounded(g, max_docs, max_segments),
        0 <= leaf.max_doc <= max_docs,
    ensures
        groups_stay_bounded(
            with_item(g, entire(leaf), leaf.max_doc as int, max_docs, max_segments),
            max_docs,
            max_segments,
        ),
{
    let item = entire(leaf);
    let next = with_item(g, item, leaf.max_doc as int, max_docs, max_segments);
    lemma_docs_of_one(item);
    let longer = g.groups.last().push(item);
    assert(longer.drop_last() =~= g.groups.last());
    if g.open {
        assert(is_bounded_group(g.groups.last(), max_docs, max_segments));
    }
    assert forall|i: int| 0 <= i < next.groups.len() implies is_bounded_group(
        #[trigger] next.groups[i],
        max_docs,
        max_segments,
    ) by {
        if i < next.groups.len() - 1 {
            assert(next.groups[i] == g.groups[i]);
        } else if g.open && g.docs + leaf.max_doc <= max_docs {
            assert(next.groups[i] == longer);
            assert forall|k: int| 0 <= k < longer.len() implies (
            #[trigger] longer[k]).max_docs >= 0 by {
                if k < g.groups.last().len() {
                    assert(longer[k] == g.groups.last()[k]);
                }
            }
        }
    }
}

/// The groups of whole leaves, as ranges.
pub open spec fn grouped_ranges(
    leaves: Seq<Arc<LeafReaderContext>>,
    max_docs: int,
    max_segments: int,
) -> Seq<Seq<LeafReaderContextPartition>> {
    grouped_leaves(leaves, max_docs, max_segments).groups.map_values(
        |g: Seq<Arc<LeafReaderContext>>| entire_leaves(g),
    )
}

proof fn lemma_leaves_bounded(
    leaves: Seq<Arc<LeafReaderContext>>,
    max_docs: int,
    max_segments: int,
)
    requires
        is_decreasing(leaves),
        valid_leaves(leaves),
        max_docs >= 0,
    ensures
        ({
            let g = grouped_leaves(leaves, max_docs, max_segments);
            groups_stay_bounded(
                Groups {
                    groups: grouped_ranges(leaves, max_docs, max_segments),
                    open: g.open,
                    docs: g.docs,
                },
                max_docs,
                max_segments,
            )
        }),
    decreases leaves.len(),
{
    let g = grouped_leaves(leaves, max_docs, max_segments);
    let ranges = grouped_ranges(leaves, max_docs, max_segments);
    if leaves.len() > 0 {
        let rest = leaves.drop_last();
        let before = grouped_leaves(rest, max_docs, max_segments);
        let leaf = leaves.last();
        lemma_leaves_bounded(rest, max_docs, max_segments);
        lemma_groups_keep_leaves(rest, max_docs, max_segments);
        let shown = Groups {
            groups: grouped_ranges(rest, max_docs, max_segments),
            open: before.open,
            docs: before.docs,
        };
        assert(leaf == leaves[leaves.len() - 1]);
        assert(entire_leaves(seq![leaf]) =~= seq![entire(leaf)]);
        if leaf.max_doc > max_docs {
            lemma_large_first(leaves, leaves.len() - 1, max_docs, max_segments);
            assert(leaves.take(leaves.len() - 1) =~= rest);
            assert(ranges =~= shown.groups.push(seq![entire(leaf)]));
            lemma_docs_of_one(entire(leaf));
        } else {
            lemma_with_item_bounded(shown, leaf, max_docs, max_segments);
            let next = with_item(shown, entire(leaf), leaf.max_doc as int, max_docs, max_segments);
            if before.open && before.docs + leaf.max_doc <= max_docs {
                let longer = before.groups.last().push(leaf);
                assert(entire_leaves(longer) =~= entire_leaves(before.groups.last()).push(
                    entire(leaf),
                ));
            }
            assert(ranges =~= next.groups);
        }
    }
}

proof fn lemma_parts_bounded(
    leaves: Seq<Arc<LeafReaderContext>>,
    max_docs: int,
    max_segments: int,
)
    requires
        is_decreasing(leaves),
        valid_leaves(leaves),
        max_docs > 0,
    ensures
        groups_stay_bounded(
            grouped_parts(leaves, max_docs, max_segments),
            max_docs,
            max_segments,
        ),
    decreases leaves.len(),
{
    if leaves.len() > 0 {
        let rest = leaves.drop_last();
        let before = grouped_parts(rest, max_docs, max_segments);
        let leaf = leaves.last();
        let g = grouped_parts(leaves, max_docs, max_segments);
        lemma_parts_bounded(rest, max_docs, max_segments);
        assert(leaf == leaves[leaves.len() - 1]);
        if leaf.max_doc > max_docs {
            lemma_large_first(leaves, leaves.len() - 1, max_docs, max_segments);
            assert(leaves.take(leaves.len() - 1) =~= rest);
            let n = num_parts(leaf.max_doc as int, max_docs);
            let parts = split_leaf(leaf, n);
            lemma_num_parts(leaf.max_doc as int, max_docs);
            assert forall|i: int| 0 <= i < g.groups.len() implies is_bounded_group(
                #[trigger] g.groups[i],
                max_docs,
                max_segments,
            ) by {
                if i < before.groups.len() {
                    assert(g.groups[i] == before.groups[i]);
                } else {
                    let k = i - before.groups.len();
                    assert(g.groups[i] == parts[k]);
                    split_covers_leaf(leaf, max_docs, k);
                    assert(parts[k] =~= seq![parts[k][0]]);
                    lemma_docs_of_one(parts[k][0]);
                }
            }
        } else {
            lemma_with_item_bounded(before, leaf, max_docs, max_segments);
        }
    }
}

/// A group of ranges of leaves, which are given in the order of decreasing size, has one of them or
/// no more than `max_segments`. It has no more than `max_docs` documents, unless it is a single
/// range of a leaf with more documents than that.
pub proof fn groups_are_bounded(
    leaves: Seq<Arc<LeafReaderContext>>,
    max_docs: int,
    max_segments: int,
    allow_segment_partitions: bool,
    i: int,
)
    requires
        is_decreasing(leaves),
        valid_leaves(leaves),
        max_docs > 0,
        0 <= i < slice_groups(leaves, max_docs, max_segments, allow_segment_partitions).len(),
    ensures
        is_bounded_group(
            slice_groups(leaves, max_docs, max_segments, allow_segment_partitions)[i],
            max_docs,
            max_segments,
        ),
{
    if allow_segment_partitions {
        lemma_parts_bounded(leaves, max_docs, max_segments);
    } else {
        lemma_leaves_bounded(leaves, max_docs, max_segments);
        let before = grouped_leaves(leaves, max_docs, max_segments);
        let g = Groups {
            groups: grouped_ranges(leaves, max_docs, max_segments),
            open: before.open,
            docs: before.docs,
        };
        assert(is_bounded_group(g.groups[i], max_docs, max_segments));
    }
}

/// The ranges at some positions.
spec fn picked(
    ps: Seq<LeafReaderContextPartition>,
    order: Seq<usize>,
) -> Seq<LeafReaderContextPartition> {
    Seq::new(order.len(), |i: int| ps[order[i] as int])
}

proof fn lemma_docs_without(ps: Seq<LeafReaderContextPartition>, q: int)
    requires
        0 <= q < ps.len(),
    ensures
        docs_of_ranges(ps) == docs_of_ranges(ps.remove(q)) + ps[q].max_docs,
    decreases ps.len(),
{
    let rest = ps.remove(q);
    if q == ps.len() - 1 {
        assert(rest =~= ps.drop_last());
    } else {
        lemma_docs_without(ps.drop_last(), q);
        assert(rest.drop_last() =~= ps.drop_last().remove(q));
        assert(rest.last() == ps.last());
    }
}

/// Different ranges together have no more documents than all ranges.
proof fn lemma_docs_of_picked(ps: Seq<LeafReaderContextPartition>, order: Seq<usize>)
    requires
        order.no_duplicates(),
        ps.len() <= usize::MAX,
        forall|i: int| 0 <= i < order.len() ==> #[trigger] order[i] < ps.len(),
        forall|i: int| 0 <= i < ps.len() ==> (#[trigger] ps[i]).max_docs >= 0,
    ensures
        docs_of_ranges(picked(ps, order)) <= docs_of_ranges(ps),
    decreases ps.len(),
{
    let all = picked(ps, order);
    if ps.len() == 0 {
        if order.len() > 0 {
            assert(order[0] < ps.len());
        }
    } else {
        let n = ps.len() - 1;
        let rest = ps.drop_last();
        assert(ps[n].max_docs >= 0);
        if order.contains(n as usize) {
            let q = choose|q: int| 0 <= q < order.len() && order[q] == n as usize;
            let fewer = order.remove(q);
            assert forall|i: int| 0 <= i < fewer.len() implies #[trigger] fewer[i] < n by {
                let k = if i < q {
                    i
                } else {
                    i + 1
                };
                assert(fewer[i] == order[k]);
                assert(order[k] != order[q]);
                assert(order[k] < ps.len());
            }
            assert(fewer.no_duplicates()) by {
                assert forall|a: int, b: int|
                    0 <= a < fewer.len() && 0 <= b < fewer.len() && a != b implies fewer[a]
                    != fewer[b] by {
                    let x = if a < q {
                        a
                    } else {
                        a + 1
                    };
                    let y = if b < q {
                        b
                    } else {
                        b + 1
                    };
                    assert(fewer[a] == order[x] && fewer[b] == order[y]);
                }
            }
            lemma_docs_of_picked(rest, fewer);
            lemma_docs_without(all, q);
            assert(all.remove(q) =~= picked(rest, fewer));
        } else {
            assert forall|i: int| 0 <= i < order.len() implies #[trigger] order[i] < n by {
                assert(order.contains(order[i]));
            }
            lemma_docs_of_picked(rest, order);
            assert(all =~= picked(rest, order));
        }
    }
}

proof fn lemma_docs_do_not_wrap(ps: Seq<LeafReaderContextPartition>)
    requires
        forall|i: int| 0 <= i < ps.len() ==> (#[trigger] ps[i]).max_docs >= 0,
        docs_of_ranges(ps) <= i32::MAX,
    ensures
        wrapping_max_docs(ps) == docs_of_ranges(ps),
        docs_of_ranges(ps) >= 0,
    decreases ps.len(),
{
    if ps.len() > 0 {
        assert(ps[ps.len() - 1].max_docs >= 0);
        lemma_docs_do_not_wrap(ps.drop_last());
    }
}

proof fn lemma_sorted_is_decreasing(
    leaves: Seq<Arc<LeafReaderContext>>,
    sorted: Seq<Arc<LeafReaderContext>>,
)
    requires
        is_sorted_by(leaves, by_decreasing_size(leaves), sorted),
        valid_leaves(leaves),
    ensures
        is_decreasing(sorted),
        valid_leaves(sorted),
{
    let keys = by_decreasing_size(leaves);
    let order = choose|order: Seq<usize>| #[trigger]
        is_stable_order(keys, leaves.len() as int, order) && sorted == Seq::new(
            leaves.len(),
            |i: int| leaves[order[i] as int],
        );
    assert forall|i: int, j: int| 0 <= i < j < sorted.len() implies (#[trigger] sorted[i]).max_doc
        >= (#[trigger] sorted[j]).max_doc by {
        let a = order[i] as int;
        let b = order[j] as int;
        assert(keys[a].0 <= keys[b].0);
    }
    assert forall|i: int| 0 <= i < sorted.len() implies (#[trigger] sorted[i]).max_doc >= 0 by {
        assert(leaves[order[i] as int].max_doc >= 0);
    }
}

/// The slice keeps to the limits: it has one range or no more than `max_segments`, and no
/// more documents than `max_docs` unless it is a single range of a leaf that is larger than that.
pub open spec fn is_bounded_slice(slice: LeafSlice, max_docs: int, max_segments: int) -> bool {
    &&& 0 < slice.partitions@.len()
    &&& slice.partitions@.len() <= max_segments || slice.partitions@.len() == 1
    &&& slice.max_docs <= max_docs || slice.partitions@.len() == 1
        && slice.partitions@[0].ctx.max_doc > max_docs
}

/// A slice has one range or no more than `max_segments`. It has no more than `max_docs` documents,
/// unless it is a single range of a leaf with more documents than that.
pub proof fn slices_are_bounded(
    leaves: Seq<Arc<LeafReaderContext>>,
    max_docs: int,
    max_segments: int,
    allow_segment_partitions: bool,
    slices: Vec<LeafSlice>,
    i: int,
)
    requires
        slices_of(leaves, max_docs, max_segments, allow_segment_partitions, Ok(slices)),
        valid_leaves(leaves),
        0 < max_docs <= i32::MAX,
        0 <= i < slices@.len(),
    ensures
        is_bounded_slice(slices@[i], max_docs, max_segments),
{
    let sorted = choose|sorted: Seq<Arc<LeafReaderContext>>| #[trigger]
        is_sorted_by(leaves, by_decreasing_size(leaves), sorted) && slices_hold(
            slices@,
            slice_groups(sorted, max_docs, max_segments, allow_segment_partitions),
        );
    lemma_sorted_is_decreasing(leaves, sorted);
    let groups = slice_groups(sorted, max_docs, max_segments, allow_segment_partitions);
    groups_are_bounded(sorted, max_docs, max_segments, allow_segment_partitions, i);
    let group = groups[i];
    let slice = slices@[i];
    assert(slice.holds(group));
    let order = choose|order: Seq<usize>| #[trigger]
        is_stable_order(by_first_doc(group), group.len() as int, order) && slice.partitions@
            == Seq::new(group.len(), |i: int| group[order[i] as int]);
    let ps = slice.partitions@;
    assert(ps =~= picked(group, order));
    assert(slice.partitions.len() == ps.len());
    if docs_of_ranges(group) <= max_docs {
        lemma_docs_of_picked(group, order);
        assert forall|k: int| 0 <= k < ps.len() implies (#[trigger] ps[k]).max_docs >= 0 by {
            assert(group[order[k] as int].max_docs >= 0);
        }
        lemma_docs_do_not_wrap(ps);
    } else {
        assert(order[0] < 1);
        assert(ps[0] == group[0]);
    }
}

/// Counts the clauses of a query, its nested ones included.
pub struct NumClausesCheckVisitor {
    num_clauses: i64,
    exceeded: bool,
    max_clause_count: i32,
    visits: Ghost<nat>,
}

impl NumClausesCheckVisitor {
    /// The number of clauses counted.
    pub closed spec fn visits(&self) -> nat {
        self.visits@
    }

    /// The number of clauses that is not exceeded.
    pub closed spec fn limit(&self) -> i32 {
        self.max_clause_count
    }

    /// The count stops once the limit is exceeded.
    pub closed spec fn wf(&self) -> bool {
        &&& self.max_clause_count >= 0
        &&& self.exceeded <==> self.visits@ > self.max_clause_count
        &&& self.num_clauses == if self.exceeded {
            self.max_clause_count as int
        } else {
            self.visits@ as int
        }
    }

    /// Creates a visitor that has not counted yet.
    pub fn new(max_clause_count: i32) -> (r: Self)
        requires
            max_clause_count >= 0,
        ensures
            r.wf(),
            r.visits() == 0,
            r.limit() == max_clause_count,
    {
        NumClausesCheckVisitor {
            num_clauses: 0,
            exceeded: false,
            max_clause_count,
            visits: Ghost(0),
        }
    }

    /// Counts a clause.
    pub fn count_one(&mut self)
        requires
            old(self).wf(),
        ensures
            final(self).wf(),
            final(self).limit() == old(self).limit(),
            final(self).visits() == old(self).visits() + 1,
    {
        proof {
            self.visits@ = self.visits@ + 1;
        }
        if self.num_clauses >= self.max_clause_count as i64 {
            self.exceeded = true;
            return;
        }
        self.num_clauses += 1;
    }

    /// Fails if more clauses than the limit were counted.
    ///
    /// # Errors
    ///
    /// [`LuceneError::ResourceLimit`] if the limit is exceeded.
    pub fn check(&self) -> (r: Result<(), LuceneError>)
        requires
            self.wf(),
        ensures
            r is Ok <==> self.visits() <= self.limit(),
            r matches Err(e) ==> is_too_many_nested_clauses(e, self.limit()),
    {
        if self.exceeded {
            return Err(TooManyNestedClauses::new(self.max_clause_count).into_lucene_error());
        }
        Ok(())
    }
}

/// The error for a query with too many nested clauses.
pub open spec fn is_too_many_nested_clauses(e: LuceneError, limit: i32) -> bool {
    e matches LuceneError::ResourceLimit(m) && m@
        == "Query contains too many nested clauses; maxClauseCount is set to "@ + decimal_int(
        limit as int,
    )
}

/// A query.
pub trait Query: Sized {
    /// How far the query is from one that cannot be rewritten.
    spec fn rank(&self) -> nat;

    /// The query that it is rewritten to; `None` when it stays as it is.
    spec fn next_form(&self) -> Option<Self>;

    /// The number of clauses, the nested ones included.
    spec fn num_clauses(&self) -> nat;

    /// Whether rewriting never fails.
    spec fn infallible(&self) -> bool;

    /// Each rewriting is closer to a query that cannot be rewritten.
    proof fn rewriting_gets_closer(&self)
        ensures
            self.next_form() matches Some(q) ==> q.rank() < self.rank(),
    ;

    /// Rewrites the query into a simpler one; `None` when it stays as it is.
    ///
    /// # Errors
    ///
    /// Whatever reading the index fails with.
    fn rewrite(&self) -> (r: Result<Option<Self>, LuceneError>)
        ensures
            self.infallible() ==> r is Ok,
            r matches Ok(q) ==> q == self.next_form(),
            r matches Ok(Some(q)) ==> self.infallible() ==> q.infallible(),
    ;

    /// Shows every clause to `visitor`.
    fn visit(&self, visitor: &mut NumClausesCheckVisitor)
        requires
            old(visitor).wf(),
        ensures
            final(visitor).wf(),
            final(visitor).limit() == old(visitor).limit(),
            final(visitor).visits() == old(visitor).visits() + self.num_clauses(),
    ;
}

/// The query that cannot be rewritten any more.
pub open spec fn final_form<Q: Query>(q: Q) -> Q
    decreases q.rank(),
{
    match q.next_form() {
        Some(next) => if next.rank() < q.rank() {
            final_form(next)
        } else {
            next
        },
        None => q,
    }
}

/// A query that was rewritten cannot be rewritten any more: rewriting it again leaves it as it is.
pub proof fn rewriting_is_idempotent<Q: Query>(q: Q)
    ensures
        final_form(q).next_form() is None,
        final_form(final_form(q)) == final_form(q),
    decreases q.rank(),
{
    q.rewriting_gets_closer();
    if let Some(next) = q.next_form() {
        rewriting_is_idempotent(next);
    }
}

/// What searchers share: the limit on clauses, and what they are created with.
#[derive(Debug)]
pub struct SearchDefaults<S, C, P> {
    /// The greatest number of clauses of a query.
    pub max_clause_count: i32,
    /// Computes scores.
    pub similarity: Arc<S>,
    /// Caches the matches of queries.
    pub query_cache: Option<Arc<C>>,
    /// Decides which queries are cached.
    pub query_caching_policy: Option<Arc<P>>,
}

impl<S, C, P> SearchDefaults<S, C, P> {
    /// Creates the defaults: a limit of 1024 clauses, and no cache.
    pub fn new(similarity: Arc<S>) -> (r: Self)
        ensures
            r.max_clause_count == DEFAULT_MAX_CLAUSE_COUNT,
            r.similarity == similarity,
            r.query_cache is None,
            r.query_caching_policy is None,
    {
        SearchDefaults {
            max_clause_count: DEFAULT_MAX_CLAUSE_COUNT,
            similarity,
            query_cache: None,
            query_caching_policy: None,
        }
    }
}

/// An index: its leaves, and the number of its documents.
#[derive(Debug)]
pub struct IndexReader {
    /// Says what the reader is.
    pub description: String,
    /// The end (exclusive) of the documents.
    pub max_doc: i32,
    /// The leaves.
    pub leaves: Vec<Arc<LeafReaderContext>>,
}

/// A reader as part of a composition of readers.
#[derive(Debug)]
pub struct IndexReaderContext {
    /// The reader.
    pub reader: Arc<IndexReader>,
    /// Whether the reader is not part of another one.
    pub is_top_level: bool,
}

impl IndexReader {
    /// Returns the reader as one that is not part of another one.
    pub fn get_context(reader: Arc<IndexReader>) -> (r: Arc<IndexReaderContext>)
        ensures
            r.reader == reader,
            r.is_top_level,
    {
        Arc::new(IndexReaderContext { reader, is_top_level: true })
    }
}

/// Reads what indexes have stored for their documents.
pub trait StoredFieldsReader {
    /// What an index has stored.
    type Fields;

    /// Opens what an index has stored; it may be nothing.
    ///
    /// # Errors
    ///
    /// Whatever reading the index fails with.
    fn stored_fields(&self, index: &IndexReader) -> (r: Result<Self::Fields, LuceneError>);
}

/// Where slices are searched.
#[derive(Debug)]
pub enum TaskExecutor<E> {
    /// One after the other.
    SameThread,
    /// By the given executor.
    Pool(E),
}

/// Searches an index.
#[derive(Debug)]
pub struct IndexSearcher<S, C, P, T, E> {
    /// The index.
    pub reader: Arc<IndexReader>,
    /// The index, as the searcher got it.
    pub reader_context: Arc<IndexReaderContext>,
    /// The leaves of the index.
    pub leaf_contexts: Vec<Arc<LeafReaderContext>>,
    /// The slices, once they are needed; the text of the error if there are none.
    pub leaf_slices: Option<Result<Vec<LeafSlice>, String>>,
    /// Where slices are searched.
    pub task_executor: TaskExecutor<E>,
    /// Computes scores.
    pub similarity: Arc<S>,
    /// Caches the matches of queries.
    pub query_cache: Option<Arc<C>>,
    /// Decides which queries are cached.
    pub query_caching_policy: Option<Arc<P>>,
    /// Limits the time of a search.
    pub query_timeout: Option<Arc<T>>,
    /// Whether a search ran out of time.
    pub partial_result: bool,
}

fn copied<T>(value: &Option<Arc<T>>) -> (r: Option<Arc<T>>)
    ensures
        r == *value,
{
    match value {
        Some(v) => Some(Arc::clone(v)),
        None => None,
    }
}

fn copied_leaves(leaves: &Vec<Arc<LeafReaderContext>>) -> (r: Vec<Arc<LeafReaderContext>>)
    ensures
        r@ == leaves@,
{
    let mut r: Vec<Arc<LeafReaderContext>> = Vec::with_capacity(leaves.len());
    let mut i: usize = 0;
    while i < leaves.len()
        invariant
            i <= leaves@.len(),
            r@ =~= leaves@.take(i as int),
        decreases leaves.len() - i,
    {
        r.push(Arc::clone(&leaves[i]));
        i += 1;
    }
    r
}

/// The slice that holds all leaves; none without leaves.
pub open spec fn single_slice(slices: Seq<LeafSlice>, leaves: Seq<Arc<LeafReaderContext>>) -> bool {
    if leaves.len() == 0 {
        slices.len() == 0
    } else {
        slices.len() == 1 && slices[0].holds(entire_leaves(leaves))
    }
}

impl<S, C, P, T, E> IndexSearcher<S, C, P, T, E> {
    /// Whether `r` is what a new searcher over `context` is.
    pub open spec fn created(
        r: Result<Self, LuceneError>,
        context: IndexReaderContext,
        executor: Option<E>,
        defaults: SearchDefaults<S, C, P>,
    ) -> bool {
        let leaves = context.reader.leaves@;
        &&& r is Ok <==> context.is_top_level && (executor is None ==> all_have_docs(leaves))
        &&& r matches Err(e) ==> if !context.is_top_level {
            e.is_illegal_argument(
                "IndexSearcher's ReaderContext must be topLevel for reader "@
                    + context.reader.description@,
            )
        } else {
            is_empty_leaf_error(e, leaves)
        }
        &&& r matches Ok(searcher) ==> {
            &&& searcher.reader == context.reader
            &&& *searcher.reader_context == context
            &&& searcher.leaf_contexts@ == leaves
            &&& executor is Some ==> searcher.leaf_slices is None
            &&& executor is None ==> (searcher.leaf_slices matches Some(Ok(slices))
                && single_slice(slices@, leaves))
            &&& searcher.task_executor == match executor {
                Some(e) => TaskExecutor::Pool(e),
                None => TaskExecutor::SameThread,
            }
            &&& searcher.similarity == defaults.similarity
            &&& searcher.query_cache == defaults.query_cache
            &&& searcher.query_caching_policy == defaults.query_caching_policy
            &&& searcher.query_timeout is None
            &&& !searcher.partial_result
        }
    }

    /// Creates a searcher over `reader` that searches slices one after the other.
    ///
    /// # Errors
    ///
    /// [`LuceneError::IllegalArgument`] if a leaf has no documents.
    pub fn new(reader: Arc<IndexReader>, defaults: &SearchDefaults<S, C, P>) -> (r: Result<
        Self,
        LuceneError,
    >)
        ensures
            Self::created(r, (IndexReaderContext { reader, is_top_level: true }), None, *defaults),
    {
        Self::with_executor(reader, None, defaults)
    }

    /// Creates a searcher over `reader`.
    ///
    /// # Errors
    ///
    /// [`LuceneError::IllegalArgument`] if there is no executor and a leaf has no
    /// documents.
    pub fn with_executor(
        reader: Arc<IndexReader>,
        executor: Option<E>,
        defaults: &SearchDefaults<S, C, P>,
    ) -> (r: Result<Self, LuceneError>)
        ensures
            Self::created(
                r,
                (IndexReaderContext { reader, is_top_level: true }),
                executor,
                *defaults,
            ),
    {
        let context = IndexReader::get_context(reader);
        Self::from_context(context, executor, defaults)
    }

    /// Creates a searcher over the reader of `context`.
    ///
    /// # Errors
    ///
    /// [`LuceneError::IllegalArgument`] if the reader is part of another one, or if
    /// there is no executor and a leaf has no documents.
    pub fn from_context(
        context: Arc<IndexReaderContext>,
        executor: Option<E>,
        defaults: &SearchDefaults<S, C, P>,
    ) -> (r: Result<Self, LuceneError>)
        ensures
            Self::created(r, *context, executor, *defaults),
    {
        if !context.is_top_level {
            let mut text = "IndexSearcher's ReaderContext must be topLevel for reader ".to_owned();
            text.append(context.reader.description.as_str());
            return Err(LuceneError::IllegalArgument(text));
        }
        let reader = Arc::clone(&context.reader);
        let leaf_contexts = copied_leaves(&reader.leaves);
        let mut leaf_slices: Option<Result<Vec<LeafSlice>, String>> = None;
        if executor.is_none() {
            let mut slices: Vec<LeafSlice> = Vec::new();
            if leaf_contexts.len() > 0 {
                match LeafSlice::entire_segments(leaf_contexts.as_slice()) {
                    Ok(slice) => {
                        slices.push(slice);
                    },
                    Err(e) => {
                        proof {
                            let i = choose|i: int|
                                0 <= i < leaf_contexts@.len() && all_have_docs(
                                    leaf_contexts@.take(i),
                                ) && (#[trigger] leaf_contexts@[i]).max_doc <= 0
                                    && e.is_illegal_argument(
                                    partition_error(0, NO_MORE_DOCS, leaf_contexts@[i].max_doc)->0,
                                );
                            assert(is_empty_leaf_error(e, context.reader.leaves@));
                        }
                        return Err(e);
                    },
                }
            }
            leaf_slices = Some(Ok(slices));
        }
        let task_executor = match executor {
            Some(e) => TaskExecutor::Pool(e),
            None => TaskExecutor::SameThread,
        };
        Ok(
            IndexSearcher {
                reader,
                reader_context: context,
                leaf_contexts,
                leaf_slices,
                task_executor,
                similarity: Arc::clone(&defaults.similarity),
                query_cache: copied(&defaults.query_cache),
                query_caching_policy: copied(&defaults.query_caching_policy),
                query_timeout: None,
                partial_result: false,
            },
        )
    }

    /// Returns what new searchers compute scores with.
    pub fn get_default_similarity(defaults: &SearchDefaults<S, C, P>) -> (r: Arc<S>)
        ensures
            r == defaults.similarity,
    {
        Arc::clone(&defaults.similarity)
    }

    /// Returns the leaves of the index.
    pub fn get_leaf_contexts(&self) -> (r: &[Arc<LeafReaderContext>])
        ensures
            r@ == self.leaf_contexts@,
    {
        self.leaf_contexts.as_slice()
    }

    /// Returns the cache of new searchers.
    pub fn get_default_query_cache(defaults: &SearchDefaults<S, C, P>) -> (r: Option<Arc<C>>)
        ensures
            r == defaults.query_cache,
    {
        copied(&defaults.query_cache)
    }

    /// Sets the cache of new searchers.
    pub fn set_default_query_cache(
        defaults: &mut SearchDefaults<S, C, P>,
        default_query_cache: Option<Arc<C>>,
    )
        ensures
            *final(defaults) == (SearchDefaults {
                query_cache: default_query_cache,
                ..*old(defaults)
            }),
    {
        defaults.query_cache = default_query_cache;
    }

    /// Returns what decides which queries new searchers cache.
    pub fn get_default_query_caching_policy(defaults: &SearchDefaults<S, C, P>) -> (r: Option<
        Arc<P>,
    >)
        ensures
            r == defaults.query_caching_policy,
    {
        copied(&defaults.query_caching_policy)
    }

    /// Sets what decides which queries new searchers cache.
    pub fn set_default_query_caching_policy(
        defaults: &mut SearchDefaults<S, C, P>,
        policy: Option<Arc<P>>,
    )
        ensures
            *final(defaults) == (SearchDefaults {
                query_caching_policy: policy,
                ..*old(defaults)
            }),
    {
        defaults.query_caching_policy = policy;
    }

    /// Returns the greatest number of clauses of a query.
    pub fn get_max_clause_count(defaults: &SearchDefaults<S, C, P>) -> (r: i32)
        ensures
            r == defaults.max_clause_count,
    {
        defaults.max_clause_count
    }

    /// Sets the greatest number of clauses of a query.
    ///
    /// # Errors
    ///
    /// [`LuceneError::IllegalArgument`] if `value` is less than 1.
    pub fn set_max_clause_count(defaults: &mut SearchDefaults<S, C, P>, value: i32) -> (r: Result<
        (),
        LuceneError,
    >)
        ensures
            r is Ok <==> value >= 1,
            r matches Err(e) ==> e.is_illegal_argument("maxClauseCount must be >= 1"@)
                && *final(defaults) == *old(defaults),
            r is Ok ==> *final(defaults) == (SearchDefaults {
                max_clause_count: value,
                ..*old(defaults)
            }),
    {
        if value < 1 {
            return Err(LuceneError::IllegalArgument("maxClauseCount must be >= 1".to_owned()));
        }
        defaults.max_clause_count = value;
        Ok(())
    }

    /// Sets the cache.
    pub fn set_query_cache(&mut self, query_cache: Option<Arc<C>>)
        ensures
            *final(self) == (IndexSearcher { query_cache, ..*old(self) }),
    {
        self.query_cache = query_cache;
    }

    /// Returns the cache.
    pub fn get_query_cache(&self) -> (r: Option<&Arc<C>>)
        ensures
            r is Some <==> self.query_cache is Some,
            r matches Some(c) ==> *c == self.query_cache->0,
    {
        self.query_cache.as_ref()
    }

    /// Sets what decides which queries are cached.
    pub fn set_query_caching_policy(&mut self, policy: Arc<P>)
        ensures
            *final(self) == (IndexSearcher { query_caching_policy: Some(policy), ..*old(self) }),
    {
        self.query_caching_policy = Some(policy);
    }

    /// Returns what decides which queries are cached.
    pub fn get_query_caching_policy(&self) -> (r: Option<&Arc<P>>)
        ensures
            r is Some <==> self.query_caching_policy is Some,
            r matches Some(p) ==> *p == self.query_caching_policy->0,
    {
        self.query_caching_policy.as_ref()
    }

    /// Divides the leaves into slices of at most 5 leaves. A slice of several leaves has
    /// at most 250000 documents.
    ///
    /// # Errors
    ///
    /// [`LuceneError::IllegalArgument`] if a leaf has no documents.
    pub fn default_slices(leaves: &[Arc<LeafReaderContext>]) -> (r: Result<
        Vec<LeafSlice>,
        LuceneError,
    >)
        requires
            valid_leaves(leaves@),
        ensures
            slices_of(
                leaves@,
                MAX_DOCS_PER_SLICE as int,
                MAX_SEGMENTS_PER_SLICE as int,
                false,
                r,
            ),
    {
        Self::compute_slices(leaves, MAX_DOCS_PER_SLICE, MAX_SEGMENTS_PER_SLICE, false)
    }

    /// Divides the leaves into slices.
    ///
    /// The leaves are taken in the order of decreasing size. A leaf with more than
    /// `max_docs_per_slice` documents is a slice of its own, or is split into at
    /// most 5 parts that are one slice each where `allow_segment_partitions` is
    /// set. The other leaves are collected in slices: a leaf begins a new slice where the
    /// last one would have more than `max_docs_per_slice` documents with it, or has
    /// `max_segments_per_slice` leaves.
    ///
    /// # Errors
    ///
    /// [`LuceneError::IllegalArgument`] if a leaf has no documents.
    pub fn compute_slices(
        leaves: &[Arc<LeafReaderContext>],
        max_docs_per_slice: i32,
        max_segments_per_slice: usize,
        allow_segment_partitions: bool,
    ) -> (r: Result<Vec<LeafSlice>, LuceneError>)
        requires
            valid_leaves(leaves@),
            allow_segment_partitions ==> max_docs_per_slice > 0 && forall|i: int|
                0 <= i < leaves@.len() ==> (#[trigger] leaves@[i]).max_doc < NO_MORE_DOCS,
        ensures
            slices_of(
                leaves@,
                max_docs_per_slice as int,
                max_segments_per_slice as int,
                allow_segment_partitions,
                r,
            ),
            max_docs_per_slice > 0 ==> (r matches Ok(slices) ==> forall|i: int|
                0 <= i < slices@.len() ==> is_bounded_slice(
                    #[trigger] slices@[i],
                    max_docs_per_slice as int,
                    max_segments_per_slice as int,
                )),
    {
        let sorted_leaves = sorted_by_size(leaves);
        proof {
            assert forall|i: int| 0 <= i < sorted_leaves@.len() implies (
            #[trigger] sorted_leaves@[i]).max_doc >= 0 && (allow_segment_partitions
                ==> sorted_leaves@[i].max_doc < NO_MORE_DOCS) by {
                assert(leaves@.contains(sorted_leaves@[i]));
            }
        }
        let r = if allow_segment_partitions {
            slices_with_segment_partitions(
                max_docs_per_slice,
                max_segments_per_slice,
                sorted_leaves.as_slice(),
            )
        } else {
            slices_of_leaves(max_docs_per_slice, max_segments_per_slice, sorted_leaves.as_slice())
        };
        proof {
            if r is Err {
                let e = r->Err_0;
                let i = choose|i: int|
                    0 <= i < sorted_leaves@.len() && (#[trigger] sorted_leaves@[i]).max_doc <= 0
                        && e.is_illegal_argument(
                        partition_error(0, NO_MORE_DOCS, sorted_leaves@[i].max_doc)->0,
                    );
                assert(leaves@.contains(sorted_leaves@[i]));
                let j = choose|j: int| 0 <= j < leaves@.len() && leaves@[j] == sorted_leaves@[i];
                assert(leaves@[j].max_doc <= 0);
                assert(is_empty_leaf_error(e, leaves@));
            } else {
                assert(is_sorted_by(leaves@, by_decreasing_size(leaves@), sorted_leaves@));
                assert(slices_hold(
                    r->Ok_0@,
                    slice_groups(
                        sorted_leaves@,
                        max_docs_per_slice as int,
                        max_segments_per_slice as int,
                        allow_segment_partitions,
                    ),
                ));
                if max_docs_per_slice > 0 {
                    assert forall|i: int| 0 <= i < r->Ok_0@.len() implies is_bounded_slice(
                        #[trigger] r->Ok_0@[i],
                        max_docs_per_slice as int,
                        max_segments_per_slice as int,
                    ) by {
                        slices_are_bounded(
                            leaves@,
                            max_docs_per_slice as int,
                            max_segments_per_slice as int,
                            allow_segment_partitions,
                            r->Ok_0,
                            i,
                        );
                    }
                }
            }
        }
        r
    }
}

/// The ranges of each slice, for leaves in the order of decreasing size.
pub open spec fn slice_groups(
    sorted: Seq<Arc<LeafReaderContext>>,
    max_docs: int,
    max_segments: int,
    allow_segment_partitions: bool,
) -> Seq<Seq<LeafReaderContextPartition>> {
    if allow_segment_partitions {
        grouped_parts(sorted, max_docs, max_segments).groups
    } else {
        grouped_ranges(sorted, max_docs, max_segments)
    }
}

/// `r` is what the division of the leaves into slices gives.
pub open spec fn slices_of(
    leaves: Seq<Arc<LeafReaderContext>>,
    max_docs: int,
    max_segments: int,
    allow_segment_partitions: bool,
    r: Result<Vec<LeafSlice>, LuceneError>,
) -> bool {
    &&& r is Ok <==> all_have_docs(leaves)
    &&& r matches Err(e) ==> is_empty_leaf_error(e, leaves)
    &&& r matches Ok(slices) ==> exists|sorted: Seq<Arc<LeafReaderContext>>| #[trigger]
        is_sorted_by(leaves, by_decreasing_size(leaves), sorted) && slices_hold(
            slices@,
            slice_groups(sorted, max_docs, max_segments, allow_segment_partitions),
        )
}

/// No two ranges are of the same leaf.
pub open spec fn distinct_leaves(ps: Seq<LeafReaderContextPartition>) -> bool {
    forall|i: int, j: int|
        0 <= i < j < ps.len() ==> (#[trigger] ps[i]).ctx.id != (#[trigger] ps[j]).ctx.id
}

/// What the slices of `leaves` are: the default ones, unless one of them has
/// several ranges of the same leaf.
pub open spec fn checked_slices(
    leaves: Seq<Arc<LeafReaderContext>>,
    slices: Result<Vec<LeafSlice>, String>,
) -> bool {
    exists|d: Result<Vec<LeafSlice>, LuceneError>| #[trigger]
        slices_of(leaves, MAX_DOCS_PER_SLICE as int, MAX_SEGMENTS_PER_SLICE as int, false, d)
            && match d {
            Err(e) => slices matches Err(m) && m@ == e.text(),
            Ok(s) => if forall|i: int|
                0 <= i < s@.len() ==> distinct_leaves((#[trigger] s@[i]).partitions@) {
                slices == Ok::<Vec<LeafSlice>, String>(s)
            } else {
                slices matches Err(m) && m@ == SAME_LEAF@
            },
        }
}

/// The text of the error for several ranges of the same leaf in one slice.
pub const SAME_LEAF: &'static str = "The same slice targets multiple leaf partitions of the same leaf reader context. A physical segment should rather get partitioned to be searched concurrently from as many slices as the number of leaf partitions it is split into.";

/// Fails if two ranges of the slice are of the same leaf.
fn enforce_distinct_leaves(leaf_slice: &LeafSlice) -> (r: Result<(), LuceneError>)
    ensures
        r is Ok <==> distinct_leaves(leaf_slice.partitions@),
        r matches Err(e) ==> e.is_illegal_state(SAME_LEAF@),
{
    let ghost ps = leaf_slice.partitions@;
    let n: usize = leaf_slice.partitions.len();
    let mut i: usize = 0;
    while i < n
        invariant
            n == ps.len(),
            ps == leaf_slice.partitions@,
            i <= n,
            forall|a: int, b: int|
                0 <= a < b < i ==> (#[trigger] ps[a]).ctx.id != (#[trigger] ps[b]).ctx.id,
        decreases n - i,
    {
        let mut j: usize = 0;
        while j < i
            invariant
                n == ps.len(),
                ps == leaf_slice.partitions@,
                j <= i < n,
                forall|a: int| 0 <= a < j ==> (#[trigger] ps[a]).ctx.id != ps[i as int].ctx.id,
            decreases i - j,
        {
            if leaf_slice.partitions[j].ctx.id == leaf_slice.partitions[i].ctx.id {
                assert(ps[j as int].ctx.id == ps[i as int].ctx.id);
                return Err(LuceneError::IllegalState(SAME_LEAF.to_owned()));
            }
            j += 1;
        }
        i += 1;
    }
    Ok(())
}

impl<S, C, P, T, E> IndexSearcher<S, C, P, T, E> {
    /// Returns the index.
    pub fn get_index_reader(&self) -> (r: &Arc<IndexReader>)
        ensures
            *r == self.reader,
    {
        &self.reader
    }

    /// Opens what the index has stored for its documents.
    ///
    /// # Errors
    ///
    /// Whatever reading the index fails with.
    pub fn stored_fields<R: StoredFieldsReader>(&self, reader: &R) -> (r: Result<
        R::Fields,
        LuceneError,
    >)
        ensures
            call_ensures(R::stored_fields, (reader, &*self.reader), r),
    {
        reader.stored_fields(&*self.reader)
    }

    /// Sets what computes scores.
    pub fn set_similarity(&mut self, similarity: Arc<S>)
        ensures
            *final(self) == (IndexSearcher { similarity, ..*old(self) }),
    {
        self.similarity = similarity;
    }

    /// Returns what computes scores.
    pub fn get_similarity(&self) -> (r: &Arc<S>)
        ensures
            *r == self.similarity,
    {
        &self.similarity
    }

    /// Returns what limits the time of a search.
    pub fn get_timeout(&self) -> (r: Option<&Arc<T>>)
        ensures
            r is Some <==> self.query_timeout is Some,
            r matches Some(t) ==> *t == self.query_timeout->0,
    {
        self.query_timeout.as_ref()
    }

    /// Sets what limits the time of a search.
    pub fn set_timeout(&mut self, query_timeout: Option<Arc<T>>)
        ensures
            *final(self) == (IndexSearcher { query_timeout, ..*old(self) }),
    {
        self.query_timeout = query_timeout;
    }

    /// Returns whether a search ran out of time.
    pub fn timed_out(&self) -> (r: bool)
        ensures
            r == self.partial_result,
    {
        self.partial_result
    }

    /// Returns the index, as the searcher got it.
    pub fn get_top_reader_context(&self) -> (r: &Arc<IndexReaderContext>)
        ensures
            *r == self.reader_context,
    {
        &self.reader_context
    }

    /// Returns where slices are searched.
    pub fn get_task_executor(&self) -> (r: &TaskExecutor<E>)
        ensures
            *r == self.task_executor,
    {
        &self.task_executor
    }

    /// The slices are known, or the leaves can be divided.
    pub open spec fn can_slice(&self) -> bool {
        self.leaf_slices is None ==> valid_leaves(self.leaf_contexts@)
    }

    /// The searcher with its slices known.
    pub open spec fn sliced(&self, after: Self) -> bool {
        &&& after == (IndexSearcher { leaf_slices: after.leaf_slices, ..*self })
        &&& after.leaf_slices is Some
        &&& self.leaf_slices is Some ==> after.leaf_slices == self.leaf_slices
        &&& self.leaf_slices is None ==> checked_slices(
            self.leaf_contexts@,
            after.leaf_slices->0,
        )
    }

    /// Returns the slices, which are computed once.
    ///
    /// # Errors
    ///
    /// [`LuceneError::IllegalState`] if a leaf has no documents, or if a slice has
    /// several ranges of the same leaf.
    pub fn get_slices(&mut self) -> (r: Result<&[LeafSlice], LuceneError>)
        requires
            old(self).can_slice(),
        ensures
            old(self).sliced(*final(self)),
            final(self).leaf_slices->0 matches Ok(s) ==> r matches Ok(t) && t@ == s@,
            final(self).leaf_slices->0 matches Err(m) ==> r matches Err(e) && e.is_illegal_state(
                m@,
            ),
    {
        if self.leaf_slices.is_none() {
            let computed = Self::default_slices(self.leaf_contexts.as_slice());
            let ghost d = computed;
            let checked: Result<Vec<LeafSlice>, String> = match computed {
                Err(e) => Err(e.into_message()),
                Ok(slices) => {
                    let mut i: usize = 0;
                    let mut failure: Option<String> = None;
                    while i < slices.len() && failure.is_none()
                        invariant
                            i <= slices@.len(),
                            failure is None ==> forall|k: int|
                                0 <= k < i ==> distinct_leaves((#[trigger] slices@[k]).partitions@),
                            failure matches Some(m) ==> m@ == SAME_LEAF@ && !(forall|k: int|
                                0 <= k < slices@.len() ==> distinct_leaves(
                                    (#[trigger] slices@[k]).partitions@,
                                )),
                        decreases slices.len() - i,
                    {
                        if slices[i].partitions.len() > 1 {
                            match enforce_distinct_leaves(&slices[i]) {
                                Ok(_) => {},
                                Err(e) => {
                                    assert(!distinct_leaves(slices@[i as int].partitions@));
                                    failure = Some(e.into_message());
                                },
                            }
                        }
                        i += 1;
                    }
                    match failure {
                        Some(m) => Err(m),
                        None => Ok(slices),
                    }
                },
            };
            assert(checked_slices(self.leaf_contexts@, checked)) by {
                assert(slices_of(
                    self.leaf_contexts@,
                    MAX_DOCS_PER_SLICE as int,
                    MAX_SEGMENTS_PER_SLICE as int,
                    false,
                    d,
                ));
            }
            self.leaf_slices = Some(checked);
        }
        match &self.leaf_slices {
            Some(Ok(slices)) => Ok(slices.as_slice()),
            Some(Err(message)) => Err(LuceneError::IllegalState(message.as_str().to_owned())),
            None => Err(LuceneError::IllegalState("".to_owned())),
        }
    }

    /// Rewrites a query until it cannot be rewritten any more.
    ///
    /// # Errors
    ///
    /// [`LuceneError::ResourceLimit`] if the rewritten query has more clauses than the limit;
    /// whatever rewriting fails with.
    pub fn rewrite<Q: Query>(
        &self,
        original: Q,
        defaults: &SearchDefaults<S, C, P>,
    ) -> (r: Result<Q, LuceneError>)
        requires
            defaults.max_clause_count >= 0,
        ensures
            original.infallible() ==> (r is Ok <==> final_form(original).num_clauses()
                <= defaults.max_clause_count),
            original.infallible() ==> (r matches Err(e) ==> is_too_many_nested_clauses(
                e,
                defaults.max_clause_count,
            )),
            r matches Ok(q) ==> {
                &&& q == final_form(original)
                &&& q.next_form() is None
                &&& q.num_clauses() <= defaults.max_clause_count
            },
    {
        let mut query: Q = original;
        loop
            invariant
                final_form(query) == final_form(original),
                original.infallible() ==> query.infallible(),
            ensures
                query == final_form(original),
                query.next_form() is None,
            decreases query.rank(),
        {
            proof {
                query.rewriting_gets_closer();
            }
            match query.rewrite()? {
                Some(rewritten) => {
                    query = rewritten;
                },
                None => {
                    break;
                },
            }
        }
        let mut visitor = NumClausesCheckVisitor::new(defaults.max_clause_count);
        query.visit(&mut visitor);
        visitor.check()?;
        Ok(query)
    }
}

/// Whether a collector takes documents of a leaf.
#[derive(Debug)]
pub enum LeafOutcome {
    /// It takes documents.
    Ready,
    /// It needs none of them.
    Terminated,
    /// It failed.
    Failed(LuceneError),
}

/// How the scoring of a leaf ended.
#[derive(Debug)]
pub enum ScoreOutcome {
    /// No document of the leaf matches.
    NotScored,
    /// All documents were scored.
    Done,
    /// The collector needs no more documents.
    Terminated,
    /// The time ran out.
    TimeExceeded,
    /// It failed.
    Failed(LuceneError),
}

/// A range of documents: a leaf, the first document, and the end.
pub type Range = (LeafReaderContext, i32, i32);

/// What [`Collector::get_leaf_collector`] says.
pub open spec fn opening<L>(r: Result<L, CollectionError>) -> LeafOutcome {
    match r {
        Ok(_) => LeafOutcome::Ready,
        Err(CollectionError::CollectionTerminated) => LeafOutcome::Terminated,
        Err(CollectionError::Failed(e)) => LeafOutcome::Failed(e),
    }
}

/// The documents of a leaf that are not deleted, where some are.
pub open spec fn live_docs_of(ctx: &LeafReaderContext) -> Option<&FixedBitSet> {
    match &ctx.live_docs {
        Some(bits) => Some(bits),
        None => None,
    }
}

/// What happens to a collector during a search.
pub enum SearchEvent<W> {
    /// It is told what is searched for.
    WeightSet(W),
    /// It is asked whether it takes documents of a leaf.
    Opened(u64, LeafOutcome),
    /// It is told that a leaf is done, with the documents of it that it has received and their
    /// scores, with the score below which documents need not have been received, and with whether
    /// its collection ended the leaf early.
    Finished(u64, Seq<(int, i32)>, i32, bool, Result<(), LuceneError>),
}

/// How the search of a range went.
pub struct LeafStep {
    /// Whether the collector takes documents.
    pub opened: LeafOutcome,
    /// How scoring ended.
    pub scored: ScoreOutcome,
    /// The documents that were collected, with their scores.
    pub collected: Seq<(int, i32)>,
    /// Documents with a lesser score need not have been collected.
    pub floor: i32,
    /// Whether the collector accepted the end of the leaf.
    pub finished: Result<(), LuceneError>,
}

impl LeafStep {
    /// What happens to the collector.
    pub open spec fn events<W>(self, range: Range) -> Seq<SearchEvent<W>> {
        let opened = SearchEvent::Opened(range.0.id, self.opened);
        let finished = SearchEvent::Finished(
            range.0.id,
            self.collected,
            self.floor,
            self.scored is Terminated,
            self.finished,
        );
        if !(self.opened is Ready) || self.scored is Failed {
            seq![opened]
        } else {
            seq![opened, finished]
        }
    }

    /// What is collected are the documents of the range that match and are not deleted; when
    /// scoring ends early, those of them up to some document.
    pub open spec fn scores<W: Weight>(
        self,
        weight: W,
        range: Range,
        limited: bool,
        reliable: bool,
    ) -> bool {
        self.opened is Ready ==> {
            &&& match weight.supplier(range.0) {
                Err(e) => self.scored == ScoreOutcome::Failed(e),
                Ok(None) => self.scored is NotScored && self.collected.len() == 0,
                Ok(Some(supplier)) => {
                    &&& !(self.scored is NotScored)
                    &&& self.scored is TimeExceeded ==> limited && is_partial_report(
                        supplier.bulk_supplied().remaining(),
                        live_docs_of(&range.0),
                        range.1 as int,
                        range.2 as int,
                        self.floor,
                        self.collected,
                    )
                    &&& self.scored is Terminated ==> is_report_so_far(
                        supplier.bulk_supplied().remaining(),
                        live_docs_of(&range.0),
                        range.1 as int,
                        range.2 as int,
                        self.floor,
                        self.collected,
                    )
                    &&& self.scored is Done ==> is_report(
                        supplier.bulk_supplied().remaining(),
                        live_docs_of(&range.0),
                        range.1 as int,
                        range.2 as int,
                        self.floor,
                        self.collected,
                    )
                },
            }
            &&& reliable && never_fails(&weight) ==> self.scored is NotScored || self.scored is Done
                || self.scored is TimeExceeded
        }
    }

    /// The result of the search of the range.
    pub open spec fn result(self) -> Result<(), LuceneError> {
        match self.opened {
            LeafOutcome::Failed(e) => Err(e),
            LeafOutcome::Terminated => Ok(()),
            LeafOutcome::Ready => match self.scored {
                ScoreOutcome::Failed(e) => Err(e),
                _ => self.finished,
            },
        }
    }

    /// Whether the time ran out.
    pub open spec fn timed_out(self) -> bool {
        self.opened is Ready && self.scored is TimeExceeded
    }
}

/// What happens to the collector in the search of the first ranges.
pub open spec fn run_events<W>(ranges: Seq<Range>, steps: Seq<LeafStep>) -> Seq<SearchEvent<W>>
    decreases steps.len(),
{
    if steps.len() == 0 {
        Seq::empty()
    } else {
        run_events::<W>(ranges, steps.drop_last()) + steps.last().events::<W>(
            ranges[steps.len() - 1],
        )
    }
}

/// The ranges are searched in order, up to the first one that fails.
pub open spec fn is_run<W: Weight>(
    weight: W,
    ranges: Seq<Range>,
    steps: Seq<LeafStep>,
    limited: bool,
    reliable: bool,
    r: Result<(), LuceneError>,
) -> bool {
    &&& forall|i: int|
        0 <= i < steps.len() ==> (#[trigger] steps[i]).scores(weight, ranges[i], limited, reliable)
    &&& steps.len() <= ranges.len()
    &&& r is Ok ==> steps.len() == ranges.len()
    &&& r is Err ==> steps.len() > 0 && steps.last().result() == r
    &&& forall|i: int|
        0 <= i < steps.len() && (r is Ok || i < steps.len() - 1) ==> (
        #[trigger] steps[i]).result() is Ok
}

/// A collector was told of `weight`, and the ranges were searched for it. A `reliable` collector
/// neither fails nor ends the search of a range early.
pub open spec fn searched<W: Weight>(
    weight: W,
    before: Seq<SearchEvent<W>>,
    after: Seq<SearchEvent<W>>,
    ranges: Seq<Range>,
    limited: bool,
    reliable: bool,
    partial_before: bool,
    partial_after: bool,
    r: Result<(), LuceneError>,
) -> bool {
    exists|steps: Seq<LeafStep>| #[trigger]
        is_run(weight, ranges, steps, limited, reliable, r) && after == before.push(
            SearchEvent::WeightSet(weight),
        ) + run_events::<W>(ranges, steps) && partial_after == (partial_before || exists|i: int|
            0 <= i < steps.len() && (#[trigger] steps[i]).timed_out())
}

/// The ranges of partitions.
pub open spec fn ranges_of(ps: Seq<LeafReaderContextPartition>) -> Seq<Range> {
    ps.map_values(|p: LeafReaderContextPartition| (*p.ctx, p.min_doc_id, p.max_doc_id))
}

/// All documents of the leaves.
pub open spec fn whole_ranges(leaves: Seq<Arc<LeafReaderContext>>) -> Seq<Range> {
    leaves.map_values(|ctx: Arc<LeafReaderContext>| (*ctx, 0i32, NO_MORE_DOCS))
}

/// Receives the documents of a search.
pub trait Collector<W> {
    /// Receives the documents of a leaf.
    type L: ScoreCollector;

    /// What happened to the collector.
    spec fn events(&self) -> Seq<SearchEvent<W>>;

    /// What the collector needs.
    spec fn mode(&self) -> ScoreMode;

    /// Whether the collector never fails, nor ends the collection of a leaf that it has begun.
    spec fn reliable(&self) -> bool;

    /// Returns what the collector needs.
    fn score_mode(&self) -> (r: ScoreMode)
        ensures
            r == self.mode(),
    ;

    /// Tells the collector what is searched.
    fn set_weight(&mut self, weight: &Arc<W>)
        ensures
            final(self).mode() == old(self).mode(),
            final(self).reliable() == old(self).reliable(),
            final(self).events() == old(self).events().push(SearchEvent::WeightSet(**weight)),
    ;

    /// Returns what receives the documents of a leaf.
    ///
    /// # Errors
    ///
    /// [`CollectionError::CollectionTerminated`] if the collector needs none of them.
    fn get_leaf_collector(&mut self, ctx: &LeafReaderContext) -> (r: Result<
        Self::L,
        CollectionError,
    >)
        ensures
            old(self).reliable() ==> !(opening(r) is Failed),
            final(self).mode() == old(self).mode(),
            final(self).reliable() == old(self).reliable(),
            final(self).events() == old(self).events().push(
                SearchEvent::Opened(ctx.id, opening(r)),
            ),
            r matches Ok(leaf) ==> {
                &&& leaf.inv()
                &&& leaf.collected().len() == 0
                &&& !leaf.ended()
                &&& forall|d: int| 0 <= d < ctx.max_doc ==> #[trigger] leaf.takes(d)
                &&& old(self).reliable() ==> leaf.infallible()
            },
    ;

    /// Tells the collector that a leaf is done, with what has received its documents.
    ///
    /// # Errors
    ///
    /// Whatever the collector fails with.
    fn finish(&mut self, ctx: &LeafReaderContext, leaf: Self::L) -> (r: Result<(), LuceneError>)
        ensures
            old(self).reliable() ==> r is Ok,
            final(self).mode() == old(self).mode(),
            final(self).reliable() == old(self).reliable(),
            final(self).events() == old(self).events().push(
                SearchEvent::Finished(ctx.id, leaf.collected(), leaf.floor(), leaf.ended(), r),
            ),
    ;
}

/// A query, prepared for the search of one index.
pub trait Weight: Sized {
    /// Provides iterators over the matches in a leaf.
    type P: ScorerSupplier;

    /// What [`Self::explain`] returns.
    spec fn explained(&self, ctx: LeafReaderContext, doc: i32) -> Result<Explanation, LuceneError>;

    /// What [`Self::scorer_supplier`] returns.
    spec fn supplier(&self, ctx: LeafReaderContext) -> Result<Option<Self::P>, LuceneError>;

    /// Explains why a document of a leaf matches, or does not match.
    ///
    /// # Errors
    ///
    /// Whatever reading the document fails with.
    fn explain(&self, ctx: &LeafReaderContext, doc: i32) -> (r: Result<Explanation, LuceneError>)
        ensures
            r == self.explained(*ctx, doc),
    ;

    /// Returns what provides iterators over the matches in a leaf, which are documents of it;
    /// `None` when there are none.
    ///
    /// # Errors
    ///
    /// Whatever reading the leaf fails with.
    fn scorer_supplier(&self, ctx: &LeafReaderContext) -> (r: Result<Option<Self::P>, LuceneError>)
        ensures
            r == self.supplier(*ctx),
            r matches Ok(Some(supplier)) ==> forall|d: int| #[trigger]
                supplier.bulk_supplied().remaining().dom().contains(d) ==> 0 <= d < ctx.max_doc,
    ;
}

/// Whether scoring the matches never fails.
pub open spec fn never_fails<W: Weight>(weight: &W) -> bool {
    forall|ctx: LeafReaderContext|
        match #[trigger] weight.supplier(ctx) {
            Ok(Some(supplier)) => supplier.infallible(),
            Ok(None) => true,
            Err(_) => false,
        }
}

/// A query that can be searched for.
pub trait SearchableQuery: Query {
    /// What the query is prepared as.
    type W: Weight;

    /// What the query is prepared as.
    spec fn weight(&self, mode: ScoreMode, boost: i32) -> Self::W;

    /// Whether preparing the query never fails.
    spec fn preparable(&self) -> bool;

    /// Prepares the query for a search, with its scores multiplied by `boost`.
    ///
    /// # Errors
    ///
    /// Whatever reading the index fails with.
    fn create_weight(&self, mode: ScoreMode, boost: i32) -> (r: Result<Arc<Self::W>, LuceneError>)
        ensures
            self.preparable() ==> r is Ok,
            r matches Ok(w) ==> *w == self.weight(mode, boost),
    ;
}

/// Caches the matches of queries.
pub trait QueryCache<W, P> {
    /// The query with cached matches.
    spec fn cached(&self, weight: W, policy: P) -> W;

    /// Returns the query with cached matches.
    fn do_cache(&self, weight: Arc<W>, policy: Arc<P>) -> (r: Arc<W>)
        ensures
            *r == self.cached(*weight, *policy),
    ;
}

/// Creates collectors and combines what they have collected.
pub trait CollectorManager<W> {
    /// The collectors.
    type C: Collector<W>;

    /// The combined result.
    type Output;

    /// Whether `c` is a new collector.
    spec fn fresh(&self, c: Self::C) -> bool;

    /// Whether the manager and its collectors never fail.
    spec fn reliable(&self) -> bool;

    /// What the collectors of a manager that never fails need.
    spec fn mode(&self) -> ScoreMode;

    /// Whether `out` combines what the collectors have collected.
    spec fn combines(&self, cs: Seq<Self::C>, out: Result<Self::Output, LuceneError>) -> bool;

    /// Creates a collector.
    ///
    /// # Errors
    ///
    /// Whatever the manager fails with.
    fn new_collector(&self) -> (r: Result<Self::C, LuceneError>)
        ensures
            self.reliable() ==> (r matches Ok(c) && c.reliable() && c.mode() == self.mode()),
            r matches Ok(c) ==> self.fresh(c),
    ;

    /// Combines what the collectors have collected.
    ///
    /// # Errors
    ///
    /// Whatever the manager fails with.
    fn reduce(&self, collectors: Vec<Self::C>) -> (r: Result<Self::Output, LuceneError>)
        ensures
            self.reliable() ==> r is Ok,
            self.combines(collectors@, r),
    ;
}

/// Whether there is a bit at `i`.
spec fn in_bits(bits: Seq<bool>, i: int) -> bool {
    0 <= i < bits.len()
}

/// Returns the range of documents of a leaf to score for `[min_doc_id, max_doc_id)`: that range,
/// without what is before the first document and, where the live documents do not reach the end of
/// the leaf, without what is after the last of them.
fn range_to_score(ctx: &LeafReaderContext, min_doc_id: i32, max_doc_id: i32) -> (r: (i32, i32))
    ensures
        0 <= r.0 <= r.1,
        r.0 == r.1 || min_doc_id <= r.0 && r.1 <= max_doc_id,
        min_doc_id >= 0 ==> r.0 == min_doc_id,
        0 <= min_doc_id <= max_doc_id && (ctx.live_docs matches Some(bits) ==> ctx.max_doc
            <= bits@.len()) ==> r.1 == max_doc_id,
        forall|d: int|
            0 <= d && min_doc_id <= d < max_doc_id && #[trigger] accepts(live_docs_of(ctx), d)
                && d < ctx.max_doc ==> r.0 <= d < r.1,
        ctx.live_docs matches Some(bits) ==> forall|d: int|
            r.0 <= d < r.1 && d < ctx.max_doc ==> #[trigger] in_bits(bits@, d),
{
    let start: i32 = if min_doc_id < 0 {
        0
    } else {
        min_doc_id
    };
    let mut end: i32 = if max_doc_id < start {
        start
    } else {
        max_doc_id
    };
    if let Some(bits) = &ctx.live_docs {
        let n: usize = bits.length();
        if ctx.max_doc > 0 && n < ctx.max_doc as usize && n < end as usize {
            end = if n < start as usize {
                start
            } else {
                n as i32
            };
        }
    }
    (start, end)
}

/// A report of the part of a range that holds its documents is a report of the range.
proof fn lemma_wider_report<B: Bits>(
    all: Map<int, i32>,
    accept_docs: Option<&B>,
    start: int,
    end: int,
    min: int,
    max: int,
    floor: i32,
    entries: Seq<(int, i32)>,
)
    requires
        is_report(all, accept_docs, start, end, floor, entries),
        start == end || min <= start <= end <= max,
        forall|d: int| #[trigger]
            all.dom().contains(d) && accepts(accept_docs, d) && min <= d < max ==> start <= d < end,
    ensures
        is_report(all, accept_docs, min, max, floor, entries),
{
    let reported = choose|reported: Map<int, i32>| #[trigger]
        reports(all, accept_docs, start, end, floor, reported) && entries == entries_in(
            reported,
            start,
            end,
        );
    assert(reports(all, accept_docs, min, max, floor, reported));
    if start == end {
        docs_in_none(reported.dom(), start, end);
        docs_in_none(reported.dom(), min, max);
    } else {
        docs_in_split(reported.dom(), min, start, max);
        docs_in_split(reported.dom(), start, end, max);
        docs_in_none(reported.dom(), min, start);
        docs_in_none(reported.dom(), end, max);
    }
    assert(entries_in(reported, min, max) =~= entries);
}

/// Gives the documents of a range that match and are not deleted to a collector, within the limit
/// of time where there is one.
fn score_range<W: Weight, L: ScoreCollector, T: QueryTimeout>(
    ctx: &LeafReaderContext,
    min_doc_id: i32,
    max_doc_id: i32,
    weight: &W,
    leaf: &mut L,
    timeout: Option<&T>,
) -> (r: ScoreOutcome)
    requires
        old(leaf).inv(),
        old(leaf).collected().len() == 0,
        !old(leaf).ended(),
        forall|d: int| 0 <= d < ctx.max_doc ==> #[trigger] old(leaf).takes(d),
    ensures
        !(r is Failed) ==> final(leaf).ended() == (r is Terminated),
        ({
            let step = LeafStep {
                opened: LeafOutcome::Ready,
                scored: r,
                collected: final(leaf).collected(),
                floor: final(leaf).floor(),
                finished: Ok(()),
            };
            step.scores(
                *weight,
                (*ctx, min_doc_id, max_doc_id),
                may_run_out(timeout),
                old(leaf).infallible(),
            )
        }),
{
    let mut supplier = match weight.scorer_supplier(ctx) {
        Err(e) => {
            return ScoreOutcome::Failed(e);
        },
        Ok(None) => {
            return ScoreOutcome::NotScored;
        },
        Ok(Some(supplier)) => supplier,
    };
    if let Err(e) = supplier.set_top_level_scoring_clause() {
        return ScoreOutcome::Failed(e);
    }
    let mut scorer = match supplier.bulk_scorer() {
        Err(e) => {
            return ScoreOutcome::Failed(e);
        },
        Ok(scorer) => scorer,
    };
    let accept_docs: Option<&FixedBitSet> = ctx.live_docs.as_ref();
    let (start, end): (i32, i32) = range_to_score(ctx, min_doc_id, max_doc_id);
    let ghost all = scorer.remaining();
    let ghost before = leaf.collected();
    assert forall|d: int| #[trigger] all.dom().contains(d) && start <= d < end implies {
        &&& leaf.takes(d)
        &&& accept_docs matches Some(bits) ==> d < bits.bit_seq().len()
    } by {
        if let Some(bits) = accept_docs {
            assert(in_bits(bits@, d));
        }
    }
    let scored: Result<bool, CollectionError> = match timeout {
        Some(timeout) => score_within(timeout, &mut scorer, leaf, accept_docs, start, end),
        None => match scorer.score(leaf, accept_docs, start, end) {
            Ok(_) => Ok(true),
            Err(e) => Err(e),
        },
    };
    proof {
        let (s, e) = (start as int, end as int);
        let (min, max) = (min_doc_id as int, max_doc_id as int);
        let floor = leaf.floor();
        let got = leaf.collected();
        assert(accept_docs == live_docs_of(ctx));
        assert forall|d: int| #[trigger]
            all.dom().contains(d) && accepts(accept_docs, d) && min <= d < max implies s <= d < e by {
        }
        match scored {
            Ok(true) => {
                if timeout is None {
                    let reported = choose|reported: Map<int, i32>| #[trigger]
                        reports(all, accept_docs, s, e, floor, reported) && got == before
                            + entries_in(reported, s, e);
                    assert(got =~= entries_in(reported, s, e));
                } else {
                    let entries = choose|entries: Seq<(int, i32)>| #[trigger]
                        is_report(all, accept_docs, s, e, floor, entries) && got == before
                            + entries;
                    assert(got =~= entries);
                }
                assert(is_report(all, accept_docs, s, e, floor, got));
                lemma_wider_report(all, accept_docs, s, e, min, max, floor, got);
            },
            Ok(false) => {
                let entries = choose|entries: Seq<(int, i32)>| #[trigger]
                    is_partial_report(all, accept_docs, s, e, floor, entries) && got == before
                        + entries;
                assert(got =~= entries);
                let to = choose|to: int|
                    s <= to < e && #[trigger] is_report(all, accept_docs, s, to, floor, got);
                lemma_wider_report(all, accept_docs, s, to, min, to, floor, got);
            },
            Err(_) => {
                let entries = choose|entries: Seq<(int, i32)>| #[trigger]
                    is_report_so_far(all, accept_docs, s, e, floor, entries) && got == before
                        + entries;
                assert(got =~= entries);
                let to = choose|to: int|
                    s <= to && (to <= e || to == s) && #[trigger] is_report(
                        all,
                        accept_docs,
                        s,
                        to,
                        floor,
                        got,
                    );
                let last = if s == to && min != s {
                    min
                } else {
                    to
                };
                lemma_wider_report(all, accept_docs, s, to, min, last, floor, got);
            },
        }
    }
    match scored {
        Ok(true) => ScoreOutcome::Done,
        Ok(false) => ScoreOutcome::TimeExceeded,
        Err(CollectionError::CollectionTerminated) => ScoreOutcome::Terminated,
        Err(CollectionError::Failed(e)) => ScoreOutcome::Failed(e),
    }
}

/// Searches a range of the documents of a leaf.
fn search_leaf_inner<W: Weight, L: Collector<W>, T: QueryTimeout>(
    ctx: &LeafReaderContext,
    min_doc_id: i32,
    max_doc_id: i32,
    weight: &W,
    collector: &mut L,
    timeout: Option<&T>,
    partial_result: &mut bool,
) -> (r: Result<(), LuceneError>)
    ensures
        final(collector).mode() == old(collector).mode(),
        final(collector).reliable() == old(collector).reliable(),
        never_fails(&*weight) && old(collector).reliable() ==> r is Ok,
        exists|step: LeafStep| #[trigger]
            is_step(
                *weight,
                old(collector).events(),
                final(collector).events(),
                step,
                (*ctx, min_doc_id, max_doc_id),
                may_run_out(timeout),
                old(collector).reliable(),
            ) && r == step.result() && *final(partial_result) == (*old(partial_result)
                || step.timed_out()),
{
    let ghost range = (*ctx, min_doc_id, max_doc_id);
    let ghost before = collector.events();
    let ghost reliable = collector.reliable();
    let ghost limited = may_run_out(timeout);
    let opened = collector.get_leaf_collector(ctx);
    let ghost first = opening(opened);
    let mut leaf = match opened {
        Ok(leaf) => leaf,
        Err(stopped) => {
            proof {
                let step = LeafStep {
                    opened: first,
                    scored: ScoreOutcome::NotScored,
                    collected: Seq::empty(),
                    floor: 0,
                    finished: Ok(()),
                };
                assert(collector.events() =~= before + step.events::<W>(range));
                assert(is_step(*weight, before, collector.events(), step, range, limited, reliable));
            }
            return match stopped {
                CollectionError::CollectionTerminated => Ok(()),
                CollectionError::Failed(e) => Err(e),
            };
        },
    };
    let scored = score_range(ctx, min_doc_id, max_doc_id, weight, &mut leaf, timeout);
    let ghost second = LeafStep {
        opened: first,
        scored,
        collected: leaf.collected(),
        floor: leaf.floor(),
        finished: Ok(()),
    };
    match scored {
        ScoreOutcome::Failed(e) => {
            proof {
                assert(collector.events() =~= before + second.events::<W>(range));
                assert(is_step(
                    *weight,
                    before,
                    collector.events(),
                    second,
                    range,
                    limited,
                    reliable,
                ));
            }
            return Err(e);
        },
        ScoreOutcome::TimeExceeded => {
            *partial_result = true;
        },
        _ => {},
    }
    let finished = collector.finish(ctx, leaf);
    proof {
        let step = LeafStep { finished, ..second };
        assert(collector.events() =~= before + step.events::<W>(range));
        assert(is_step(*weight, before, collector.events(), step, range, limited, reliable));
    }
    finished
}

/// A search of the whole index collects, in each leaf that the collector takes and whose scoring
/// does not end early, the documents that match and are not deleted: all of them whose score is
/// asked for, and no others.
pub proof fn searches_are_exact<W: Weight>(
    weight: W,
    leaves: Seq<Arc<LeafReaderContext>>,
    steps: Seq<LeafStep>,
    limited: bool,
    reliable: bool,
    k: int,
)
    requires
        is_run(weight, whole_ranges(leaves), steps, limited, reliable, Ok(())),
        0 <= k < leaves.len(),
        steps[k].opened is Ready,
        steps[k].scored is Done,
    ensures
        weight.supplier(*leaves[k]) matches Ok(Some(supplier)) && ({
            let all = supplier.bulk_supplied().remaining();
            let live = live_docs_of(&*leaves[k]);
            let found = steps[k].collected;
            &&& forall|d: int| #[trigger]
                all.dom().contains(d) && 0 <= d < NO_MORE_DOCS && accepts(live, d) && all[d]
                    >= steps[k].floor ==> found.contains((d, all[d]))
            &&& forall|i: int|
                0 <= i < found.len() ==> all.dom().contains((#[trigger] found[i]).0) && accepts(
                    live,
                    found[i].0,
                ) && 0 <= found[i].1 <= all[found[i].0]
        }),
{
    let range = whole_ranges(leaves)[k];
    assert(steps[k].scores(weight, range, limited, reliable));
    assert(range == (*leaves[k], 0i32, NO_MORE_DOCS));
    let supplier = weight.supplier(range.0)->Ok_0->0;
    reports_are_exact(
        supplier.bulk_supplied().remaining(),
        live_docs_of(&range.0),
        range.1 as int,
        range.2 as int,
        steps[k].floor,
        steps[k].collected,
    );
}

/// The events of one step follow those before, and the step scores the documents of the range.
pub open spec fn is_step<W: Weight>(
    weight: W,
    before: Seq<SearchEvent<W>>,
    after: Seq<SearchEvent<W>>,
    step: LeafStep,
    range: Range,
    limited: bool,
    reliable: bool,
) -> bool {
    &&& after == before + step.events::<W>(range)
    &&& step.scores(weight, range, limited, reliable)
}

proof fn lemma_run_step<W>(ranges: Seq<Range>, steps: Seq<LeafStep>, step: LeafStep)
    ensures
        run_events::<W>(ranges, steps.push(step)) == run_events::<W>(ranges, steps) + step.events::<W>(
            ranges[steps.len() as int],
        ),
{
    assert(steps.push(step).drop_last() =~= steps);
}

/// The time runs out only where there is a limit of it.
proof fn lemma_late_means_limited<W: Weight>(
    weight: &W,
    before: Seq<SearchEvent<W>>,
    after: Seq<SearchEvent<W>>,
    ranges: Seq<Range>,
    limited: bool,
    reliable: bool,
    late: bool,
    r: Result<(), LuceneError>,
)
    requires
        searched(*weight, before, after, ranges, limited, reliable, false, late, r),
    ensures
        late ==> limited,
{
    let steps = choose|steps: Seq<LeafStep>| #[trigger]
        is_run(*weight, ranges, steps, limited, reliable, r) && late == exists|i: int|
            0 <= i < steps.len() && (#[trigger] steps[i]).timed_out();
    if late {
        let i = choose|i: int| 0 <= i < steps.len() && (#[trigger] steps[i]).timed_out();
        assert(steps[i].scores(*weight, ranges[i], limited, reliable));
    }
}

/// Searches ranges one after the other, up to the first one that fails.
fn search_partitions_inner<W: Weight, L: Collector<W>, T: QueryTimeout>(
    partitions: &[LeafReaderContextPartition],
    weight: &Arc<W>,
    collector: &mut L,
    timeout: Option<&T>,
    partial_result: &mut bool,
) -> (r: Result<(), LuceneError>)
    ensures
        final(collector).mode() == old(collector).mode(),
        final(collector).reliable() == old(collector).reliable(),
        never_fails(&**weight) && old(collector).reliable() ==> r is Ok,
        searched(
            **weight,
            old(collector).events(),
            final(collector).events(),
            ranges_of(partitions@),
            may_run_out(timeout),
            old(collector).reliable(),
            *old(partial_result),
            *final(partial_result),
            r,
        ),
{
    collector.set_weight(weight);
    let ghost before = collector.events();
    let ghost reliable = collector.reliable();
    let ghost limited = may_run_out(timeout);
    let ghost ranges = ranges_of(partitions@);
    let ghost mut steps: Seq<LeafStep> = Seq::empty();
    assert(before + run_events::<W>(ranges, steps) =~= before);
    let mut i: usize = 0;
    while i < partitions.len()
        invariant
            ranges == ranges_of(partitions@),
            i <= partitions@.len(),
            steps.len() == i,
            collector.mode() == old(collector).mode(),
            collector.reliable() == old(collector).reliable(),
            collector.events() == before + run_events::<W>(ranges, steps),
            reliable == old(collector).reliable(),
            limited == may_run_out(timeout),
            forall|k: int|
                0 <= k < steps.len() ==> (#[trigger] steps[k]).result() is Ok && steps[k].scores(
                    **weight,
                    ranges[k],
                    limited,
                    reliable,
                ),
            *partial_result == (*old(partial_result) || exists|k: int|
                0 <= k < steps.len() && (#[trigger] steps[k]).timed_out()),
            before == old(collector).events().push(SearchEvent::WeightSet(**weight)),
        decreases partitions.len() - i,
    {
        let part = &partitions[i];
        let ghost events0 = collector.events();
        let ghost partial0 = *partial_result;
        let r = search_leaf_inner(
            &part.ctx,
            part.min_doc_id,
            part.max_doc_id,
            &**weight,
            collector,
            timeout,
            partial_result,
        );
        proof {
            let step = choose|step: LeafStep| #[trigger]
                is_step(
                    **weight,
                    events0,
                    collector.events(),
                    step,
                    ranges[i as int],
                    limited,
                    reliable,
                ) && r == step.result() && *partial_result == (partial0 || step.timed_out());
            lemma_run_step::<W>(ranges, steps, step);
            let all = steps.push(step);
            assert(collector.events() =~= before + run_events::<W>(ranges, all));
            assert((exists|k: int| 0 <= k < all.len() && (#[trigger] all[k]).timed_out()) == ((
            exists|k: int| 0 <= k < steps.len() && (#[trigger] steps[k]).timed_out())
                || step.timed_out())) by {
                if exists|k: int| 0 <= k < steps.len() && (#[trigger] steps[k]).timed_out() {
                    let k = choose|k: int|
                        0 <= k < steps.len() && (#[trigger] steps[k]).timed_out();
                    assert(all[k].timed_out());
                }
                if step.timed_out() {
                    assert(all[steps.len() as int].timed_out());
                }
            }
            if r is Err {
                assert(is_run(**weight, ranges, all, limited, reliable, r));
            }
            steps = all;
        }
        r?;
        i += 1;
    }
    assert(is_run(**weight, ranges, steps, limited, reliable, Ok(())));
    Ok(())
}

impl<S, C, P, T: QueryTimeout, E> IndexSearcher<S, C, P, T, E> {
    /// Whether there is a limit of time, and the answer that it is over may come.
    pub open spec fn may_run_out(&self) -> bool {
        match &self.query_timeout {
            Some(timeout) => may_run_out(Some(&**timeout)),
            None => false,
        }
    }

    /// Searches a range of the documents of a leaf.
    ///
    /// # Errors
    ///
    /// What the collector or the query fails with; not the early end of the
    /// collection, nor the end of the time.
    pub fn search_leaf<W: Weight, L: Collector<W>>(
        &mut self,
        ctx: &Arc<LeafReaderContext>,
        min_doc_id: i32,
        max_doc_id: i32,
        weight: &Arc<W>,
        collector: &mut L,
    ) -> (r: Result<(), LuceneError>)
        ensures
            *final(self) == (IndexSearcher {
                partial_result: final(self).partial_result,
                ..*old(self)
            }),
            final(collector).mode() == old(collector).mode(),
            final(collector).reliable() == old(collector).reliable(),
            never_fails(&**weight) && old(collector).reliable() ==> r is Ok,
            exists|step: LeafStep| #[trigger]
                is_step(
                    **weight,
                    old(collector).events(),
                    final(collector).events(),
                    step,
                    (**ctx, min_doc_id, max_doc_id),
                    old(self).may_run_out(),
                    old(collector).reliable(),
                ) && r == step.result() && final(self).partial_result == (old(self).partial_result
                    || step.timed_out()),
    {
        let timeout: Option<&T> = match &self.query_timeout {
            Some(timeout) => Some(&**timeout),
            None => None,
        };
        assert(may_run_out(timeout) == old(self).may_run_out());
        search_leaf_inner(
            ctx,
            min_doc_id,
            max_doc_id,
            &**weight,
            collector,
            timeout,
            &mut self.partial_result,
        )
    }

    /// Searches ranges one after the other, up to the first one that fails.
    ///
    /// # Errors
    ///
    /// What the collector or the query fails with.
    pub fn search_partitions<W: Weight, L: Collector<W>>(
        &mut self,
        partitions: &[LeafReaderContextPartition],
        weight: &Arc<W>,
        collector: &mut L,
    ) -> (r: Result<(), LuceneError>)
        ensures
            *final(self) == (IndexSearcher {
                partial_result: final(self).partial_result,
                ..*old(self)
            }),
            final(collector).mode() == old(collector).mode(),
            final(collector).reliable() == old(collector).reliable(),
            never_fails(&**weight) && old(collector).reliable() ==> r is Ok,
            searched(
                **weight,
                old(collector).events(),
                final(collector).events(),
                ranges_of(partitions@),
                old(self).may_run_out(),
                old(collector).reliable(),
                old(self).partial_result,
                final(self).partial_result,
                r,
            ),
    {
        let timeout: Option<&T> = match &self.query_timeout {
            Some(timeout) => Some(&**timeout),
            None => None,
        };
        assert(may_run_out(timeout) == old(self).may_run_out());
        search_partitions_inner(partitions, weight, collector, timeout, &mut self.partial_result)
    }
}

impl<S, C, P, T, E> IndexSearcher<S, C, P, T, E> {
    /// Prepares a query for a search; its matches are cached where they are
    /// needed without scores, and there are a cache and a policy.
    ///
    /// # Errors
    ///
    /// Whatever reading the index fails with.
    pub fn create_weight<Q: SearchableQuery>(
        &self,
        query: &Q,
        score_mode: ScoreMode,
        boost: i32,
    ) -> (r: Result<Arc<Q::W>, LuceneError>) where C: QueryCache<Q::W, P>
        ensures
            query.preparable() ==> r is Ok,
            r matches Ok(w) ==> *w == self.prepared(*query, score_mode, boost),
    {
        let weight = query.create_weight(score_mode, boost)?;
        if !score_mode.needs_scores() {
            match (&self.query_cache, &self.query_caching_policy) {
                (Some(cache), Some(policy)) => {
                    return Ok(cache.do_cache(weight, Arc::clone(policy)));
                },
                _ => {},
            }
        }
        Ok(weight)
    }

    /// What a query is prepared as.
    pub open spec fn prepared<Q: SearchableQuery>(
        &self,
        query: Q,
        score_mode: ScoreMode,
        boost: i32,
    ) -> Q::W where C: QueryCache<Q::W, P> {
        if !score_mode.scored() && self.query_cache is Some && self.query_caching_policy is Some {
            self.query_cache->0.cached(
                query.weight(score_mode, boost),
                *self.query_caching_policy->0,
            )
        } else {
            query.weight(score_mode, boost)
        }
    }
}

/// A hit of a search. The score is an integer that is ordered like it.
#[derive(Debug, Clone, Copy)]
pub struct ScoreDoc {
    /// The document.
    pub doc: i32,
    /// The score.
    pub score: i32,
    /// The shard that the hit is from; -1 when there is none.
    pub shard_index: i32,
}

/// The number of hits that are collected: at most as many as there are documents,
/// and documents are taken to be at least one.
pub open spec fn capped_hits(num_hits: i32, max_doc: i32) -> i32 {
    let limit = if max_doc < 1 {
        1
    } else {
        max_doc
    };
    if num_hits < limit {
        num_hits
    } else {
        limit
    }
}

/// The numbers that say how often a term occurs.
#[derive(Debug)]
pub struct TermStatistics {
    /// The term.
    pub term: Vec<u8>,
    /// The number of documents with the term.
    pub doc_freq: i64,
    /// The number of occurrences.
    pub total_term_freq: i64,
}

/// The numbers that say how often a field occurs in one leaf.
#[derive(Debug, Clone, Copy)]
pub struct FieldStatistics {
    /// The number of documents with the field.
    pub doc_count: i32,
    /// The number of occurrences of terms.
    pub sum_total_term_freq: i64,
    /// The number of pairs of a term and a document.
    pub sum_doc_freq: i64,
}

/// The numbers that say how often a field occurs.
#[derive(Debug)]
pub struct CollectionStatistics {
    /// The field.
    pub field: String,
    /// The end (exclusive) of the documents.
    pub max_doc: i64,
    /// The number of documents with the field.
    pub doc_count: i64,
    /// The number of occurrences of terms.
    pub sum_total_term_freq: i64,
    /// The number of pairs of a term and a document.
    pub sum_doc_freq: i64,
}

/// The sum of a number over the leaves that have the field.
pub open spec fn sum_over(
    leaves: Seq<Option<FieldStatistics>>,
    f: spec_fn(FieldStatistics) -> int,
) -> int
    decreases leaves.len(),
{
    if leaves.len() == 0 {
        0
    } else {
        sum_over(leaves.drop_last(), f) + match leaves.last() {
            Some(stats) => f(stats),
            None => 0,
        }
    }
}

/// The number of documents with the field.
pub open spec fn doc_counts() -> spec_fn(FieldStatistics) -> int {
    |f: FieldStatistics| f.doc_count as int
}

/// The number of occurrences of terms.
pub open spec fn total_term_freqs() -> spec_fn(FieldStatistics) -> int {
    |f: FieldStatistics| f.sum_total_term_freq as int
}

/// The number of pairs of a term and a document.
pub open spec fn doc_freqs() -> spec_fn(FieldStatistics) -> int {
    |f: FieldStatistics| f.sum_doc_freq as int
}

/// The position of the leaf that holds `doc`: the last one that starts at or
/// before it.
pub open spec fn is_leaf_of(leaves: Seq<Arc<LeafReaderContext>>, doc: int, n: int) -> bool {
    &&& 0 <= n < leaves.len()
    &&& leaves[n].doc_base <= doc
    &&& forall|i: int| n < i < leaves.len() ==> (#[trigger] leaves[i]).doc_base > doc
}

/// Returns the position of the leaf that holds `doc`.
pub fn sub_index_from_leaves(doc: i32, leaves: &[Arc<LeafReaderContext>]) -> (r: usize)
    requires
        leaves@.len() > 0,
        leaves@[0].doc_base <= doc,
        forall|i: int, j: int|
            0 <= i < j < leaves@.len() ==> (#[trigger] leaves@[i]).doc_base <= (
            #[trigger] leaves@[j]).doc_base,
    ensures
        is_leaf_of(leaves@, doc as int, r as int),
{
    let mut lo: usize = 0;
    let mut hi: usize = leaves.len();
    while hi - lo > 1
        invariant
            lo < hi <= leaves@.len(),
            leaves@[lo as int].doc_base <= doc,
            forall|i: int| hi <= i < leaves@.len() ==> (#[trigger] leaves@[i]).doc_base > doc,
            forall|i: int, j: int|
                0 <= i < j < leaves@.len() ==> (#[trigger] leaves@[i]).doc_base <= (
                #[trigger] leaves@[j]).doc_base,
        decreases hi - lo,
    {
        let mid: usize = lo + (hi - lo) / 2;
        if leaves[mid].doc_base <= doc {
            lo = mid;
        } else {
            assert forall|i: int| mid <= i < leaves@.len() implies (
            #[trigger] leaves@[i]).doc_base > doc by {
                assert(leaves@[mid as int].doc_base > doc);
            }
            hi = mid;
        }
    }
    lo
}

/// `r` explains `doc`: that it is deleted, or what the query says of the document
/// of its leaf.
pub open spec fn explains<W: Weight>(
    leaves: Seq<Arc<LeafReaderContext>>,
    weight: W,
    doc: i32,
    r: Result<Explanation, LuceneError>,
) -> bool {
    forall|n: int| #[trigger]
        is_leaf_of(leaves, doc as int, n) ==> {
            let leaf = leaves[n];
            let d = doc - leaf.doc_base;
            if leaf.live_docs matches Some(bits) && !bits@[d] {
                r matches Ok(e) && !e.is_match && e.description@ == "Document "@ + decimal_int(
                    doc as int,
                ) + " is deleted"@ && e.details@.len() == 0
            } else {
                r == weight.explained(*leaf, d as i32)
            }
        }
}

impl<S, C, P, T: QueryTimeout, E> IndexSearcher<S, C, P, T, E> {
    /// Searches the whole index, leaf by leaf.
    ///
    /// # Errors
    ///
    /// What rewriting, the collector or the query fails with.
    pub fn search_with_collector<Q: SearchableQuery, L: Collector<Q::W>>(
        &mut self,
        query: Q,
        collector: &mut L,
        defaults: &SearchDefaults<S, C, P>,
    ) -> (r: Result<(), LuceneError>) where C: QueryCache<Q::W, P>
        requires
            defaults.max_clause_count >= 0,
        ensures
            *final(self) == (IndexSearcher {
                partial_result: final(self).partial_result,
                ..*old(self)
            }),
            final(collector).mode() == old(collector).mode(),
            final(collector).reliable() == old(collector).reliable(),
            ({
                let q = final_form(query);
                let weight = old(self).prepared(q, old(collector).mode(), UNIT_BOOST);
                &&& query.infallible() && q.num_clauses() > defaults.max_clause_count ==> {
                    &&& r matches Err(e) && is_too_many_nested_clauses(
                        e,
                        defaults.max_clause_count,
                    )
                    &&& final(collector).events() == old(collector).events()
                }
                &&& query.infallible() && q.num_clauses() <= defaults.max_clause_count
                    && q.preparable() && never_fails(&weight) && old(collector).reliable()
                    ==> r is Ok
                &&& r is Ok ==> q.num_clauses() <= defaults.max_clause_count
                &&& if final(collector).events() == old(collector).events() {
                    r is Err && final(self).partial_result == old(self).partial_result
                } else {
                    searched(
                        weight,
                        old(collector).events(),
                        final(collector).events(),
                        whole_ranges(old(self).leaf_contexts@),
                        old(self).may_run_out(),
                        old(collector).reliable(),
                        old(self).partial_result,
                        final(self).partial_result,
                        r,
                    )
                }
            }),
    {
        let ghost q = final_form(query);
        let rewritten = self.rewrite(query, defaults)?;
        let weight = self.create_weight(&rewritten, collector.score_mode(), UNIT_BOOST)?;
        let ghost limited = self.may_run_out();
        let ghost reliable = collector.reliable();
        collector.set_weight(&weight);
        let ghost before = collector.events();
        let ghost ranges = whole_ranges(self.leaf_contexts@);
        let ghost mut steps: Seq<LeafStep> = Seq::empty();
        assert(before + run_events::<Q::W>(ranges, steps) =~= before);
        let mut i: usize = 0;
        while i < self.leaf_contexts.len()
            invariant
                *self == (IndexSearcher { partial_result: self.partial_result, ..*old(self) }),
                q.num_clauses() <= defaults.max_clause_count,
                *weight == old(self).prepared(q, old(collector).mode(), UNIT_BOOST),
                q == final_form(query),
                ranges == whole_ranges(self.leaf_contexts@),
                limited == self.may_run_out(),
                i <= self.leaf_contexts@.len(),
                steps.len() == i,
                collector.mode() == old(collector).mode(),
                collector.reliable() == old(collector).reliable(),
                before == old(collector).events().push(SearchEvent::WeightSet(*weight)),
                collector.events() == before + run_events::<Q::W>(ranges, steps),
                reliable == old(collector).reliable(),
                forall|k: int|
                    0 <= k < steps.len() ==> (#[trigger] steps[k]).result() is Ok
                        && steps[k].scores(*weight, ranges[k], limited, reliable),
                self.partial_result == (old(self).partial_result || exists|k: int|
                    0 <= k < steps.len() && (#[trigger] steps[k]).timed_out()),
            decreases self.leaf_contexts.len() - i,
        {
            let ctx = Arc::clone(&self.leaf_contexts[i]);
            let ghost events0 = collector.events();
            let ghost partial0 = self.partial_result;
            let r = self.search_leaf(&ctx, 0, NO_MORE_DOCS, &weight, collector);
            proof {
                let step = choose|step: LeafStep| #[trigger]
                    is_step(
                        *weight,
                        events0,
                        collector.events(),
                        step,
                        ranges[i as int],
                        limited,
                        reliable,
                    ) && r == step.result() && self.partial_result == (partial0
                        || step.timed_out());
                lemma_run_step::<Q::W>(ranges, steps, step);
                let all = steps.push(step);
                assert(collector.events() =~= before + run_events::<Q::W>(ranges, all));
                assert((exists|k: int| 0 <= k < all.len() && (#[trigger] all[k]).timed_out()) == ((
                exists|k: int| 0 <= k < steps.len() && (#[trigger] steps[k]).timed_out())
                    || step.timed_out())) by {
                    if exists|k: int| 0 <= k < steps.len() && (#[trigger] steps[k]).timed_out() {
                        let k = choose|k: int|
                            0 <= k < steps.len() && (#[trigger] steps[k]).timed_out();
                        assert(all[k].timed_out());
                    }
                    if step.timed_out() {
                        assert(all[steps.len() as int].timed_out());
                    }
                }
                if r is Err {
                    assert(is_run(*weight, ranges, all, limited, reliable, r));
                    assert(collector.events().len() > old(collector).events().len());
                }
                steps = all;
            }
            r?;
            i += 1;
        }
        assert(is_run(*weight, ranges, steps, limited, reliable, Ok(())));
        assert(collector.events().len() > old(collector).events().len());
        Ok(())
    }

    /// What becomes of the searcher in a search, also in one that fails: its slices may be known
    /// after it, and the result may be partial where the time can run out.
    pub open spec fn only_searched(&self, after: Self) -> bool {
        &&& after == *self || self.sliced(
            IndexSearcher { partial_result: self.partial_result, ..after },
        )
        &&& self.partial_result ==> after.partial_result
        &&& after.partial_result ==> self.partial_result || self.may_run_out()
    }

    /// What holds after a search with the collectors of a manager.
    ///
    /// Where nothing that the search depends on fails, it fails only if the query has too
    /// many clauses, or if the leaves cannot be divided into slices.
    pub open spec fn managed<Q: SearchableQuery, M: CollectorManager<Q::W>>(
        &self,
        after: Self,
        query: Q,
        manager: M,
        defaults: SearchDefaults<S, C, P>,
        r: Result<M::Output, LuceneError>,
    ) -> bool where C: QueryCache<Q::W, P> {
        let q = final_form(query);
        &&& self.only_searched(after)
        &&& r is Ok ==> {
            &&& q.num_clauses() <= defaults.max_clause_count
            &&& self.sliced(IndexSearcher { partial_result: self.partial_result, ..after })
            &&& after.leaf_slices->0 matches Ok(slices) && exists|mode: ScoreMode| #[trigger]
                combined(
                    manager,
                    self.prepared(q, mode, UNIT_BOOST),
                    mode,
                    slices@,
                    self.may_run_out(),
                    self.partial_result,
                    after.partial_result,
                    r,
                )
        }
        &&& query.infallible() && q.preparable() && manager.reliable() && never_fails(
            &self.prepared(q, manager.mode(), UNIT_BOOST),
        ) ==> {
            if q.num_clauses() > defaults.max_clause_count {
                r matches Err(e) && is_too_many_nested_clauses(e, defaults.max_clause_count)
                    && after == *self
            } else {
                &&& self.sliced(IndexSearcher { partial_result: self.partial_result, ..after })
                &&& match after.leaf_slices->0 {
                    Ok(_) => r is Ok,
                    Err(m) => r matches Err(e) && e.is_illegal_state(m@),
                }
            }
        }
    }

    /// Searches the index with the collectors of a manager, one for each slice, and
    /// combines what they have collected.
    ///
    /// # Errors
    ///
    /// [`LuceneError::IllegalState`] if the collectors do not all need the same, or if the
    /// leaves cannot be divided; [`LuceneError::ResourceLimit`] if the query has too many
    /// clauses; what rewriting, the manager, the collectors or the query fails with.
    pub fn search_with_manager<Q: SearchableQuery, M: CollectorManager<Q::W>>(
        &mut self,
        query: Q,
        manager: &M,
        defaults: &SearchDefaults<S, C, P>,
    ) -> (r: Result<M::Output, LuceneError>) where C: QueryCache<Q::W, P>
        requires
            defaults.max_clause_count >= 0,
            old(self).can_slice(),
        ensures
            old(self).managed(*final(self), query, *manager, *defaults, r),
    {
        let first_collector = manager.new_collector()?;
        let mode: ScoreMode = first_collector.score_mode();
        let rewritten = self.rewrite(query, defaults)?;
        let weight = self.create_weight(&rewritten, mode, UNIT_BOOST)?;
        self.search_weight::<Q, M>(weight, manager, first_collector)
    }

    /// Searches with one collector for each slice.
    fn search_weight<Q: SearchableQuery, M: CollectorManager<Q::W>>(
        &mut self,
        weight: Arc<Q::W>,
        manager: &M,
        first_collector: M::C,
    ) -> (r: Result<M::Output, LuceneError>)
        requires
            old(self).can_slice(),
            manager.fresh(first_collector),
        ensures
            old(self).sliced(
                (IndexSearcher { partial_result: old(self).partial_result, ..*final(self) }),
            ),
            old(self).only_searched(*final(self)),
            final(self).leaf_slices->0 matches Err(m) ==> (r matches Err(e)
                && e.is_illegal_state(m@)),
            r is Ok ==> final(self).leaf_slices->0 is Ok && combined(
                *manager,
                *weight,
                first_collector.mode(),
                final(self).leaf_slices->0->Ok_0@,
                old(self).may_run_out(),
                old(self).partial_result,
                final(self).partial_result,
                r,
            ),
            final(self).leaf_slices->0 is Ok && manager.reliable() && never_fails(&*weight)
                && first_collector.reliable() && first_collector.mode() == manager.mode()
                ==> r is Ok,
    {
        let ghost limited = self.may_run_out();
        let num_slices: usize = self.get_slices()?.len();
        let ghost slices = self.leaf_slices->0->Ok_0@;
        let ghost sliced = *self;
        let mut collectors: Vec<M::C> = Vec::with_capacity(num_slices);
        let score_mode: ScoreMode = first_collector.score_mode();
        let ghost steady = manager.reliable() && never_fails(&*weight) && first_collector.reliable()
            && score_mode == manager.mode();
        collectors.push(first_collector);
        if num_slices == 0 {
            let ghost all = collectors@;
            let r = manager.reduce(collectors);
            proof {
                let late: Seq<bool> = Seq::empty();
                assert(collected_by(*manager, *weight, score_mode, slices, limited, all, all, late));
                assert(manager.combines(all, r));
            }
            return r;
        }
        while collectors.len() < num_slices
            invariant
                *self == sliced,
                self.partial_result == old(self).partial_result,
                old(self).sliced(
                    (IndexSearcher { partial_result: old(self).partial_result, ..*self }),
                ),
                self.leaf_slices->0 is Ok,
                steady ==> manager.reliable() && score_mode == manager.mode(),
                steady == (manager.reliable() && never_fails(&*weight) && first_collector.reliable()
                    && first_collector.mode() == manager.mode()),
                1 <= collectors@.len() <= num_slices,
                forall|i: int|
                    0 <= i < collectors@.len() ==> manager.fresh(#[trigger] collectors@[i])
                        && collectors@[i].mode() == score_mode,
                steady ==> forall|i: int|
                    0 <= i < collectors@.len() ==> (#[trigger] collectors@[i]).reliable(),
            decreases num_slices - collectors.len(),
        {
            let collector = manager.new_collector()?;
            check_score_mode(score_mode, collector.score_mode())?;
            collectors.push(collector);
        }
        let ghost fresh = collectors@;
        let mut done: Vec<M::C> = Vec::with_capacity(num_slices);
        let ghost mut late: Seq<bool> = Seq::empty();
        let mut i: usize = 0;
        while i < num_slices
            invariant
                *self == (IndexSearcher { partial_result: self.partial_result, ..sliced }),
                old(self).sliced(
                    (IndexSearcher { partial_result: old(self).partial_result, ..sliced }),
                ),
                sliced.leaf_slices matches Some(Ok(s)) && s@ == slices,
                slices.len() == num_slices,
                i <= num_slices,
                fresh.len() == num_slices,
                collectors@ == fresh.skip(i as int),
                steady == (manager.reliable() && never_fails(&*weight) && first_collector.reliable()
                    && first_collector.mode() == manager.mode()),
                steady ==> forall|k: int|
                    0 <= k < fresh.len() ==> (#[trigger] fresh[k]).reliable(),
                done@.len() == i,
                late.len() == i,
                forall|k: int|
                    0 <= k < i ==> slice_collected::<Q::W, M::C>(
                        slices[k],
                        *weight,
                        limited,
                        fresh[k],
                        #[trigger] done@[k],
                        late[k],
                    ),
                self.partial_result == (old(self).partial_result || late.contains(true)),
                late.contains(true) ==> limited,
                limited == sliced.may_run_out(),
                limited == old(self).may_run_out(),
            decreases num_slices - i,
        {
            let mut collector = collectors.remove(0);
            assert(collectors@ =~= fresh.skip(i + 1));
            let ghost before = collector;
            let mut timed_out: bool = false;
            let timeout: Option<&T> = match &self.query_timeout {
                Some(timeout) => Some(&**timeout),
                None => None,
            };
            let r = match &self.leaf_slices {
                Some(Ok(slices)) => search_partitions_inner(
                    slices[i].partitions.as_slice(),
                    &weight,
                    &mut collector,
                    timeout,
                    &mut timed_out,
                ),
                _ => Ok(()),
            };
            if timed_out {
                self.partial_result = true;
            }
            proof {
                lemma_late_means_limited(
                    &*weight,
                    before.events(),
                    collector.events(),
                    ranges_of(slices[i as int].partitions@),
                    limited,
                    before.reliable(),
                    timed_out,
                    r,
                );
            }
            r?;
            proof {
                let all = late.push(timed_out);
                assert(all.contains(true) == (late.contains(true) || timed_out)) by {
                    if late.contains(true) {
                        let k = choose|k: int| 0 <= k < late.len() && late[k];
                        assert(all[k]);
                    }
                    if timed_out {
                        assert(all[late.len() as int]);
                    }
                }
                late = all;
            }
            done.push(collector);
            i += 1;
        }
        let ghost all = done@;
        let r = manager.reduce(done);
        proof {
            assert(collected_by(*manager, *weight, score_mode, slices, limited, fresh, all, late));
            assert(manager.combines(all, r));
        }
        r
    }

    /// Counts the documents that match a query, with the collectors of the manager that
    /// `make_manager` makes for the slices.
    ///
    /// # Errors
    ///
    /// What [`Self::search_with_manager`] fails with, and what making the manager fails
    /// with.
    pub fn count<
        Q: SearchableQuery,
        M: CollectorManager<Q::W, Output = i32>,
        F: Fn(&[LeafSlice]) -> M,
    >(&mut self, query: Q, make_manager: F, defaults: &SearchDefaults<S, C, P>) -> (r: Result<
        i32,
        LuceneError,
    >) where C: QueryCache<Q::W, P>
        requires
            defaults.max_clause_count >= 0,
            old(self).can_slice(),
            forall|slices: &[LeafSlice]| call_requires(make_manager, (slices,)),
        ensures
            old(self).only_searched(*final(self)),
            query.infallible() && final_form(query).num_clauses() > defaults.max_clause_count ==> (
            r matches Err(e) && is_too_many_nested_clauses(e, defaults.max_clause_count)
                && *final(self) == *old(self)),
            query.infallible() && final_form(query).num_clauses() <= defaults.max_clause_count
                && final_form(query).preparable() && (forall|slices: &[LeafSlice], m: M| #[trigger]
                call_ensures(make_manager, (slices,), m) ==> m.reliable() && never_fails(
                    &old(self).prepared(final_form(query), m.mode(), UNIT_BOOST),
                )) ==> final(self).leaf_slices is Some && match final(self).leaf_slices->0 {
                Ok(_) => r is Ok,
                Err(m) => r matches Err(e) && e.is_illegal_state(m@),
            },
            r is Ok ==> exists|slices: &[LeafSlice], m: M| #[trigger]
                call_ensures(make_manager, (slices,), m) && (
                final(self).leaf_slices matches Some(Ok(s)) && slices@ == s@) && old(self).managed(
                    *final(self),
                    query,
                    m,
                    *defaults,
                    r,
                ),
    {
        let rewritten = self.rewrite(query, defaults)?;
        let slices = self.get_slices()?;
        let ghost given = slices;
        let manager = make_manager(slices);
        let ghost sliced = *self;
        let first_collector = manager.new_collector()?;
        let mode: ScoreMode = first_collector.score_mode();
        let weight = self.create_weight(&rewritten, mode, UNIT_BOOST)?;
        let r = self.search_weight::<Q, M>(weight, &manager, first_collector);
        proof {
            assert(call_ensures(make_manager, (given,), manager));
            assert(sliced.prepared(rewritten, mode, UNIT_BOOST) == old(self).prepared(
                rewritten,
                mode,
                UNIT_BOOST,
            ));
            assert(r is Ok ==> combined(
                manager,
                *weight,
                mode,
                given@,
                old(self).may_run_out(),
                old(self).partial_result,
                self.partial_result,
                r,
            ));
        }
        r
    }

    /// Returns the number of hits that a search for the hits after `after` collects.
    ///
    /// # Errors
    ///
    /// [`LuceneError::IllegalArgument`] if `after` is not a document of the index.
    pub fn check_after(&self, after: Option<ScoreDoc>, num_hits: i32) -> (r: Result<
        i32,
        LuceneError,
    >)
        ensures
            ({
                let limit = if self.reader.max_doc < 1 {
                    1
                } else {
                    self.reader.max_doc
                };
                &&& r is Err <==> (after matches Some(a) && a.doc >= limit)
                &&& r matches Err(e) ==> e.is_illegal_argument(
                    "after.doc exceeds the number of documents in the reader: after.doc="@
                        + decimal_int(after->0.doc as int) + " limit="@ + decimal_int(
                        limit as int,
                    ),
                )
                &&& r matches Ok(n) ==> n == capped_hits(num_hits, self.reader.max_doc)
            }),
    {
        let limit: i32 = if self.reader.max_doc < 1 {
            1
        } else {
            self.reader.max_doc
        };
        if let Some(after) = after {
            if after.doc >= limit {
                return Err(
                    LuceneError::IllegalArgument(
                        with_two_numbers(
                            "after.doc exceeds the number of documents in the reader: after.doc=",
                            after.doc as i64,
                            " limit=",
                            limit as i64,
                        ),
                    ),
                );
            }
        }
        if num_hits < limit {
            Ok(num_hits)
        } else {
            Ok(limit)
        }
    }

    /// Searches for the best hits after `after`, with a manager that is made for
    /// the number of hits, `after`, and the number of hits to count.
    ///
    /// # Errors
    ///
    /// [`LuceneError::IllegalArgument`] if `after` is not a document of the index;
    /// what making the manager or the search fails with.
    pub fn search_after<
        Q: SearchableQuery,
        M: CollectorManager<Q::W>,
        F: Fn(i32, Option<ScoreDoc>, i32) -> Result<M, LuceneError>,
    >(
        &mut self,
        after: Option<ScoreDoc>,
        query: Q,
        num_hits: i32,
        make_manager: F,
        defaults: &SearchDefaults<S, C, P>,
    ) -> (r: Result<M::Output, LuceneError>) where C: QueryCache<Q::W, P>
        requires
            defaults.max_clause_count >= 0,
            old(self).can_slice(),
            call_requires(
                make_manager,
                (
                    capped_hits(num_hits, old(self).reader.max_doc),
                    after,
                    TOTAL_HITS_THRESHOLD,
                ),
            ),
        ensures
            (after matches Some(a) && a.doc >= (if old(self).reader.max_doc < 1 {
                1
            } else {
                old(self).reader.max_doc
            })) ==> (r matches Err(e) && e.is_illegal_argument(
                "after.doc exceeds the number of documents in the reader: after.doc="@
                    + decimal_int(after->0.doc as int) + " limit="@ + decimal_int(
                    (if old(self).reader.max_doc < 1 {
                        1
                    } else {
                        old(self).reader.max_doc
                    }) as int,
                ),
            ) && *final(self) == *old(self)),
            !(after matches Some(a) && a.doc >= (if old(self).reader.max_doc < 1 {
                1
            } else {
                old(self).reader.max_doc
            })) ==> exists|made: Result<M, LuceneError>| #[trigger]
                call_ensures(
                    make_manager,
                    (
                        capped_hits(num_hits, old(self).reader.max_doc),
                        after,
                        TOTAL_HITS_THRESHOLD,
                    ),
                    made,
                ) && match made {
                    Err(e) => r == Err::<M::Output, LuceneError>(e) && *final(self) == *old(self),
                    Ok(m) => old(self).managed(*final(self), query, m, *defaults, r),
                },
    {
        let capped: i32 = self.check_after(after, num_hits)?;
        let made = make_manager(capped, after, TOTAL_HITS_THRESHOLD);
        assert(call_ensures(make_manager, (capped, after, TOTAL_HITS_THRESHOLD), made));
        match made {
            Err(e) => Err(e),
            Ok(manager) => self.search_with_manager(query, &manager, defaults),
        }
    }

    /// Searches for the best hits.
    ///
    /// # Errors
    ///
    /// What making the manager or the search fails with.
    pub fn search<
        Q: SearchableQuery,
        M: CollectorManager<Q::W>,
        F: Fn(i32, Option<ScoreDoc>, i32) -> Result<M, LuceneError>,
    >(
        &mut self,
        query: Q,
        n: i32,
        make_manager: F,
        defaults: &SearchDefaults<S, C, P>,
    ) -> (r: Result<M::Output, LuceneError>) where C: QueryCache<Q::W, P>
        requires
            defaults.max_clause_count >= 0,
            old(self).can_slice(),
            call_requires(
                make_manager,
                (
                    capped_hits(n, old(self).reader.max_doc),
                    None::<ScoreDoc>,
                    TOTAL_HITS_THRESHOLD,
                ),
            ),
        ensures
            exists|made: Result<M, LuceneError>| #[trigger]
                call_ensures(
                    make_manager,
                    (
                        capped_hits(n, old(self).reader.max_doc),
                        None::<ScoreDoc>,
                        TOTAL_HITS_THRESHOLD,
                    ),
                    made,
                ) && match made {
                    Err(e) => r == Err::<M::Output, LuceneError>(e) && *final(self) == *old(self),
                    Ok(m) => old(self).managed(*final(self), query, m, *defaults, r),
                },
    {
        self.search_after(None, query, n, make_manager, defaults)
    }

    /// The documents of the index are those of the leaves, in order.
    pub open spec fn can_explain(&self, doc: i32) -> bool {
        let leaves = self.leaf_contexts@;
        &&& leaves.len() > 0
        &&& leaves[0].doc_base == 0
        &&& 0 <= doc
        &&& forall|i: int, j: int|
            0 <= i < j < leaves.len() ==> (#[trigger] leaves[i]).doc_base <= (
            #[trigger] leaves[j]).doc_base
        &&& forall|i: int| #[trigger]
            is_leaf_of(leaves, doc as int, i) ==> {
                &&& leaves[i].doc_base >= 0
                &&& leaves[i].live_docs matches Some(bits) ==> doc - leaves[i].doc_base
                    < bits@.len()
            }
    }

    /// Explains why a document of the index matches, or does not match.
    ///
    /// # Errors
    ///
    /// Whatever reading the document fails with.
    pub fn explain_weight<W: Weight>(&self, weight: &Arc<W>, doc: i32) -> (r: Result<
        Explanation,
        LuceneError,
    >)
        requires
            self.can_explain(doc),
        ensures
            explains(self.leaf_contexts@, **weight, doc, r),
    {
        let n: usize = sub_index_from_leaves(doc, self.leaf_contexts.as_slice());
        let ctx = &self.leaf_contexts[n];
        assert(is_leaf_of(self.leaf_contexts@, doc as int, n as int));
        let de_based_doc: i32 = doc - ctx.doc_base;
        proof {
            assert forall|m: int| #[trigger]
                is_leaf_of(self.leaf_contexts@, doc as int, m) implies m == n by {
                if m < n {
                    assert(self.leaf_contexts@[n as int].doc_base > doc);
                }
                if m > n {
                    assert(self.leaf_contexts@[m].doc_base > doc);
                }
            }
        }
        if let Some(live_docs) = &ctx.live_docs {
            if !live_docs.get(de_based_doc as usize) {
                let mut text = with_number("Document ", doc as i64);
                text.append(" is deleted");
                return Ok(Explanation::no_match(text, Vec::new()));
            }
        }
        weight.explain(ctx, de_based_doc)
    }

    /// Rewrites and prepares a query, and explains why a document of the index
    /// matches it, or does not match it.
    ///
    /// # Errors
    ///
    /// What rewriting or preparing the query, or reading the document fails with.
    pub fn explain<Q: SearchableQuery>(
        &self,
        query: Q,
        doc: i32,
        defaults: &SearchDefaults<S, C, P>,
    ) -> (r: Result<Explanation, LuceneError>) where C: QueryCache<Q::W, P>
        requires
            defaults.max_clause_count >= 0,
            self.can_explain(doc),
        ensures
            ({
                let q = final_form(query);
                &&& query.infallible() && q.num_clauses() > defaults.max_clause_count ==> (
                r matches Err(e) && is_too_many_nested_clauses(e, defaults.max_clause_count))
                &&& (query.infallible() && q.num_clauses() <= defaults.max_clause_count
                    && q.preparable()) || r is Ok ==> {
                    &&& q.num_clauses() <= defaults.max_clause_count
                    &&& explains(
                        self.leaf_contexts@,
                        self.prepared(q, ScoreMode::COMPLETE, UNIT_BOOST),
                        doc,
                        r,
                    )
                }
            }),
    {
        let rewritten = self.rewrite(query, defaults)?;
        let weight = self.create_weight(&rewritten, ScoreMode::COMPLETE, UNIT_BOOST)?;
        self.explain_weight(&weight, doc)
    }

    /// Returns how often a term occurs.
    ///
    /// # Errors
    ///
    /// [`LuceneError::IllegalArgument`] if no document has the term.
    pub fn term_statistics(&self, term: Vec<u8>, doc_freq: i32, total_term_freq: i64) -> (r: Result<
        TermStatistics,
        LuceneError,
    >)
        ensures
            r is Ok <==> doc_freq > 0,
            r matches Err(e) ==> e.is_illegal_argument(
                "docFreq must be positive, docFreq: "@ + decimal_int(doc_freq as int),
            ),
            r matches Ok(stats) ==> stats == (TermStatistics {
                term,
                doc_freq: doc_freq as i64,
                total_term_freq,
            }),
    {
        if doc_freq <= 0 {
            return Err(
                LuceneError::IllegalArgument(
                    with_number("docFreq must be positive, docFreq: ", doc_freq as i64),
                ),
            );
        }
        Ok(TermStatistics { term, doc_freq: doc_freq as i64, total_term_freq })
    }

    /// Returns how often a field occurs, from the numbers of the leaves that have
    /// it; `None` if no document has it.
    pub fn collection_statistics(&self, field: String, leaves: &[Option<FieldStatistics>]) -> (r:
        Option<CollectionStatistics>)
        requires
            forall|k: int|
                0 <= k <= leaves@.len() ==> {
                    &&& i64::MIN <= sum_over(#[trigger] leaves@.take(k), doc_counts()) <= i64::MAX
                    &&& i64::MIN <= sum_over(leaves@.take(k), total_term_freqs()) <= i64::MAX
                    &&& i64::MIN <= sum_over(leaves@.take(k), doc_freqs()) <= i64::MAX
                },
        ensures
            r is None <==> sum_over(leaves@, doc_counts()) == 0,
            r matches Some(stats) ==> {
                &&& stats.field == field
                &&& stats.max_doc == self.reader.max_doc
                &&& stats.doc_count == sum_over(leaves@, doc_counts())
                &&& stats.sum_total_term_freq == sum_over(leaves@, total_term_freqs())
                &&& stats.sum_doc_freq == sum_over(leaves@, doc_freqs())
            },
    {
        let mut doc_count: i64 = 0;
        let mut sum_total_term_freq: i64 = 0;
        let mut sum_doc_freq: i64 = 0;
        let mut i: usize = 0;
        while i < leaves.len()
            invariant
                i <= leaves@.len(),
                forall|k: int|
                    0 <= k <= leaves@.len() ==> {
                        &&& i64::MIN <= sum_over(#[trigger] leaves@.take(k), doc_counts())
                            <= i64::MAX
                        &&& i64::MIN <= sum_over(leaves@.take(k), total_term_freqs()) <= i64::MAX
                        &&& i64::MIN <= sum_over(leaves@.take(k), doc_freqs()) <= i64::MAX
                    },
                doc_count == sum_over(leaves@.take(i as int), doc_counts()),
                sum_total_term_freq == sum_over(leaves@.take(i as int), total_term_freqs()),
                sum_doc_freq == sum_over(leaves@.take(i as int), doc_freqs()),
            decreases leaves.len() - i,
        {
            proof {
                assert(leaves@.take(i + 1).drop_last() =~= leaves@.take(i as int));
                assert(leaves@.take(i + 1).last() == leaves@[i as int]);
            }
            if let Some(stats) = leaves[i] {
                doc_count += stats.doc_count as i64;
                sum_total_term_freq += stats.sum_total_term_freq;
                sum_doc_freq += stats.sum_doc_freq;
            }
            i += 1;
        }
        assert(leaves@.take(i as int) =~= leaves@);
        if doc_count == 0 {
            return None;
        }
        Some(
            CollectionStatistics {
                field,
                max_doc: self.reader.max_doc as i64,
                doc_count,
                sum_total_term_freq,
                sum_doc_freq,
            },
        )
    }
}

/// The error for collectors of a manager that do not all need the same.
pub const MODES_DIFFER: &'static str = "CollectorManager does not always produce collectors with the same score mode";

/// Fails if a collector needs something else than the first one.
///
/// # Errors
///
/// [`LuceneError::IllegalState`] if `found` is not `expected`.
pub fn check_score_mode(expected: ScoreMode, found: ScoreMode) -> (r: Result<(), LuceneError>)
    ensures
        r is Ok <==> expected == found,
        r matches Err(e) ==> e.is_illegal_state(MODES_DIFFER@),
{
    if expected != found {
        return Err(LuceneError::IllegalState(MODES_DIFFER.to_owned()));
    }
    Ok(())
}

/// A collector has searched a slice; `late` says whether the time ran out.
pub open spec fn slice_collected<W: Weight, L: Collector<W>>(
    slice: LeafSlice,
    weight: W,
    limited: bool,
    before: L,
    after: L,
    late: bool,
) -> bool {
    &&& after.mode() == before.mode()
    &&& searched(
        weight,
        before.events(),
        after.events(),
        ranges_of(slice.partitions@),
        limited,
        before.reliable(),
        false,
        late,
        Ok(()),
    )
}

/// New collectors that all need the same have searched the slices, one for each;
/// without slices, one new collector has searched nothing.
pub open spec fn collected_by<W: Weight, M: CollectorManager<W>>(
    manager: M,
    weight: W,
    mode: ScoreMode,
    slices: Seq<LeafSlice>,
    limited: bool,
    fresh: Seq<M::C>,
    collectors: Seq<M::C>,
    late: Seq<bool>,
) -> bool {
    &&& fresh.len() == collectors.len()
    &&& late.len() == slices.len()
    &&& forall|i: int|
        0 <= i < fresh.len() ==> manager.fresh(#[trigger] fresh[i]) && fresh[i].mode() == mode
    &&& if slices.len() == 0 {
        fresh.len() == 1 && collectors == fresh
    } else {
        &&& fresh.len() == slices.len()
        &&& forall|i: int|
            0 <= i < slices.len() ==> slice_collected::<W, M::C>(
                slices[i],
                weight,
                limited,
                fresh[i],
                #[trigger] collectors[i],
                late[i],
            )
    }
}

/// `r` combines what collectors have collected in the slices; the result is partial where
/// the time ran out, or was before.
pub open spec fn combined<W: Weight, M: CollectorManager<W>>(
    manager: M,
    weight: W,
    mode: ScoreMode,
    slices: Seq<LeafSlice>,
    limited: bool,
    partial_before: bool,
    partial_after: bool,
    r: Result<M::Output, LuceneError>,
) -> bool {
    exists|fresh: Seq<M::C>, collectors: Seq<M::C>, late: Seq<bool>| #[trigger]
        collected_by(manager, weight, mode, slices, limited, fresh, collectors, late)
            && manager.combines(collectors, r) && partial_after == (partial_before
            || late.contains(true))
}

/// What is collected in a range, over the bits of the leaf. Nothing is left out where the range is
/// searched in full.
spec fn collects_range<W: Weight>(
    weight: W,
    range: Range,
    collected: Seq<(int, i32)>,
    floor: i32,
    in_full: bool,
) -> bool {
    match weight.supplier(range.0) {
        Err(_) => false,
        Ok(None) => collected.len() == 0,
        Ok(Some(supplier)) => {
            let all = supplier.bulk_supplied().remaining();
            &&& forall|i: int|
                0 <= i < collected.len() ==> {
                    let (d, score) = #[trigger] collected[i];
                    &&& range.1 <= d < range.2 && all.dom().contains(d) && 0 <= score <= all[d]
                    &&& range.0.live_docs matches Some(bits) ==> 0 <= d < bits@.len() && bits@[d]
                }
            &&& forall|i: int, j: int|
                0 <= i < j < collected.len() ==> (#[trigger] collected[i]).0 < (
                #[trigger] collected[j]).0
            &&& in_full ==> forall|d: int|
                #![trigger all.dom().contains(d)]
                all.dom().contains(d) && range.1 <= d < range.2 && all[d] >= floor && (
                range.0.live_docs matches Some(bits) ==> 0 <= d < bits@.len() && bits@[d])
                    ==> collected.contains((d, all[d]))
        },
    }
}

/// The events of a step follow those of the steps before it.
proof fn lemma_run_at<W>(ranges: Seq<Range>, steps: Seq<LeafStep>, k: int)
    requires
        0 <= k < steps.len(),
    ensures
        ({
            let from = run_events::<W>(ranges, steps.take(k)).len();
            let events = steps[k].events::<W>(ranges[k]);
            let all = run_events::<W>(ranges, steps);
            &&& run_events::<W>(ranges, steps.take(k + 1)).len() == from + events.len()
            &&& from + events.len() <= all.len()
            &&& forall|i: int| 0 <= i < events.len() ==> all[from + i] == #[trigger] events[i]
        }),
    decreases steps.len(),
{
    let last = steps.len() - 1;
    if k == last {
        assert(steps.take(k) =~= steps.drop_last());
        assert(steps.take(k + 1) =~= steps);
    } else {
        let fewer = steps.drop_last();
        lemma_run_at::<W>(ranges, fewer, k);
        assert(fewer.take(k) =~= steps.take(k));
        assert(fewer.take(k + 1) =~= steps.take(k + 1));
        assert(fewer[k] == steps[k]);
    }
}

/// What a step collects, over the bits of the leaf.
proof fn lemma_step_collects<W: Weight>(
    weight: W,
    range: Range,
    step: LeafStep,
    limited: bool,
    reliable: bool,
    late: bool,
)
    requires
        step.scores(weight, range, limited, reliable),
        step.opened is Ready,
        step.result() is Ok,
        step.timed_out() ==> late,
    ensures
        collects_range(
            weight,
            range,
            step.collected,
            step.floor,
            !(step.scored is Terminated) && (!limited || !late),
        ),
{
    if let Ok(Some(supplier)) = weight.supplier(range.0) {
        let all = supplier.bulk_supplied().remaining();
        let live = live_docs_of(&range.0);
        let (from, to) = (range.1 as int, range.2 as int);
        let end = if step.scored is Done {
            to
        } else if step.scored is TimeExceeded {
            choose|end: int|
                from <= end < to && #[trigger] is_report(
                    all,
                    live,
                    from,
                    end,
                    step.floor,
                    step.collected,
                )
        } else {
            choose|end: int|
                from <= end && (end <= to || end == from) && #[trigger] is_report(
                    all,
                    live,
                    from,
                    end,
                    step.floor,
                    step.collected,
                )
        };
        reports_are_exact(all, live, from, end, step.floor, step.collected);
        assert forall|i: int| 0 <= i < step.collected.len() implies {
            let (d, score) = #[trigger] step.collected[i];
            &&& range.1 <= d < range.2 && all.dom().contains(d) && 0 <= score <= all[d]
            &&& range.0.live_docs matches Some(bits) ==> 0 <= d < bits@.len() && bits@[d]
        } by {
            assert(accepts(live, step.collected[i].0));
        }
        assert forall|d: int|
            range.0.live_docs matches Some(bits) ==> 0 <= d < bits@.len()
                && bits@[d] implies #[trigger] accepts(live, d) by {}
    }
}

/// A search of ranges tells the collector of the weight and then goes through the ranges in order.
proof fn lemma_ranges_searched<W: Weight>(
    weight: W,
    before: Seq<SearchEvent<W>>,
    after: Seq<SearchEvent<W>>,
    ranges: Seq<Range>,
    limited: bool,
    reliable: bool,
    partial_before: bool,
    partial_after: bool,
    r: Result<(), LuceneError>,
) -> (at: Seq<int>)
    requires
        searched(
            weight,
            before,
            after,
            ranges,
            limited,
            reliable,
            partial_before,
            partial_after,
            r,
        ),
    ensures
        r is Ok ==> at.len() == ranges.len(),
        r is Err ==> 0 < at.len() <= ranges.len(),
        before.len() < after.len() && after.take(before.len() as int) == before,
        after[before.len() as int] == SearchEvent::WeightSet(weight),
        at.len() > 0 ==> at[0] == before.len() + 1,
        at.len() == 0 ==> after.len() == before.len() + 1,
        forall|k: int|
            0 <= k < at.len() ==> {
                &&& 0 <= (#[trigger] at[k]) < after.len()
                &&& after[at[k]] matches SearchEvent::Opened(id, outcome) && id == ranges[k].0.id && (r
                    is Ok || k < at.len() - 1 ==> {
                    let next = if k < at.len() - 1 {
                        at[k + 1]
                    } else {
                        after.len() as int
                    };
                    if outcome is Ready {
                        &&& next == at[k] + 2
                        &&& after[at[k] + 1] matches SearchEvent::Finished(
                            finished,
                            collected,
                            floor,
                            ended,
                            accepted,
                        ) && finished == ranges[k].0.id && accepted is Ok && collects_range(weight, ranges[k], collected, floor, !ended && (!limited || !partial_after))
                    } else {
                        outcome is Terminated && next == at[k] + 1
                    }
                })
            },
{
    let steps = choose|steps: Seq<LeafStep>| #[trigger]
        is_run(weight, ranges, steps, limited, reliable, r) && after == before.push(
            SearchEvent::WeightSet(weight),
        ) + run_events::<W>(ranges, steps) && partial_after == (partial_before || exists|i: int|
            0 <= i < steps.len() && (#[trigger] steps[i]).timed_out());
    let first = before.len() + 1;
    let at = Seq::new(
        steps.len(),
        |k: int| first + run_events::<W>(ranges, steps.take(k)).len() as int,
    );
    assert(after.take(before.len() as int) =~= before);
    assert(steps.take(0) =~= Seq::empty());
    assert forall|k: int| 0 <= k < at.len() implies {
        &&& 0 <= (#[trigger] at[k]) < after.len()
        &&& after[at[k]] matches SearchEvent::Opened(id, outcome) && id == ranges[k].0.id && (r
            is Ok || k < at.len() - 1 ==> {
            let next = if k < at.len() - 1 {
                at[k + 1]
            } else {
                after.len() as int
            };
            if outcome is Ready {
                &&& next == at[k] + 2
                &&& after[at[k] + 1] matches SearchEvent::Finished(
                    finished,
                    collected,
                    floor,
                    ended,
                    accepted,
                ) && finished == ranges[k].0.id && accepted is Ok && collects_range(weight, ranges[k], collected, floor, !ended && (!limited || !partial_after))
            } else {
                outcome is Terminated && next == at[k] + 1
            }
        })
    } by {
        lemma_run_at::<W>(ranges, steps, k);
        let events = steps[k].events::<W>(ranges[k]);
        let from = run_events::<W>(ranges, steps.take(k)).len() as int;
        assert(run_events::<W>(ranges, steps)[from + 0] == events[0]);
        assert(after[at[k]] == events[0]);
        if k == steps.len() - 1 {
            assert(steps.take(k + 1) =~= steps);
        }
        if r is Ok || k < at.len() - 1 {
            assert(steps[k].result() is Ok);
            assert(k < at.len() - 1 ==> at[k + 1] == at[k] + events.len());
        }
        if (r is Ok || k < at.len() - 1) && steps[k].opened is Ready {
            assert(run_events::<W>(ranges, steps)[from + 1] == events[1]);
            assert(after[at[k] + 1] == events[1]);
            assert(steps[k].timed_out() ==> partial_after);
            assert(steps[k].scores(weight, ranges[k], limited, reliable));
            lemma_step_collects(weight, ranges[k], steps[k], limited, reliable, partial_after);
        }
    }
    at
}

/// A search of the whole index goes through the leaves in order, up to the first one that fails.
/// `at` are the places in the history of the collector where it is asked to take documents of a
/// leaf. What is collected in a leaf that it takes are documents of the leaf that match and that
/// the live documents of the leaf hold, where it has them; each once, in increasing order, with a
/// score that is at most its own. Unless the collector ends the leaf or the time runs out, every
/// such document with a score of at least the floor is collected with its score.
pub proof fn leaves_are_searched_in_full<W: Weight>(
    weight: W,
    before: Seq<SearchEvent<W>>,
    after: Seq<SearchEvent<W>>,
    leaves: Seq<Arc<LeafReaderContext>>,
    limited: bool,
    reliable: bool,
    partial_before: bool,
    partial_after: bool,
    r: Result<(), LuceneError>,
) -> (at: Seq<int>)
    requires
        searched(
            weight,
            before,
            after,
            whole_ranges(leaves),
            limited,
            reliable,
            partial_before,
            partial_after,
            r,
        ),
    ensures
        r is Ok ==> at.len() == leaves.len(),
        r is Err ==> 0 < at.len() <= leaves.len(),
        before.len() < after.len() && after.take(before.len() as int) == before,
        after[before.len() as int] == SearchEvent::WeightSet(weight),
        at.len() > 0 ==> at[0] == before.len() + 1,
        at.len() == 0 ==> after.len() == before.len() + 1,
        forall|k: int|
            0 <= k < at.len() ==> {
                &&& 0 <= (#[trigger] at[k]) < after.len()
                &&& after[at[k]] matches SearchEvent::Opened(id, outcome) && id == leaves[k].id && (r
                    is Ok || k < at.len() - 1 ==> {
                    let next = if k < at.len() - 1 {
                        at[k + 1]
                    } else {
                        after.len() as int
                    };
                    if outcome is Ready {
                        &&& next == at[k] + 2
                        &&& after[at[k] + 1] matches SearchEvent::Finished(
                            finished,
                            collected,
                            floor,
                            ended,
                            accepted,
                        ) && finished == leaves[k].id && accepted is Ok && match weight.supplier(*leaves[k]) {
                            Err(_) => false,
                            Ok(None) => collected.len() == 0,
                            Ok(Some(supplier)) => {
                                let all = supplier.bulk_supplied().remaining();
                                &&& forall|i: int|
                                    0 <= i < collected.len() ==> {
                                        let (d, score) = #[trigger] collected[i];
                                        &&& 0 <= d < NO_MORE_DOCS && all.dom().contains(d) && 0 <= score <= all[d]
                                        &&& leaves[k].live_docs matches Some(bits) ==> 0 <= d < bits@.len() && bits@[d]
                                    }
                                &&& forall|i: int, j: int|
                                    0 <= i < j < collected.len() ==> (#[trigger] collected[i]).0 < (
                                    #[trigger] collected[j]).0
                                &&& !ended && (!limited || !partial_after) ==> forall|d: int|
                                    #![trigger all.dom().contains(d)]
                                    all.dom().contains(d) && 0 <= d < NO_MORE_DOCS && all[d] >= floor && (
                                    leaves[k].live_docs matches Some(bits) ==> 0 <= d < bits@.len() && bits@[d])
                                        ==> collected.contains((d, all[d]))
                            },
                        }
                    } else {
                        outcome is Terminated && next == at[k] + 1
                    }
                })
            },
{
    let ranges = whole_ranges(leaves);
    assert(ranges.len() == leaves.len());
    assert forall|k: int| 0 <= k < leaves.len() implies (#[trigger] ranges[k]) == (
        *leaves[k],
        0i32,
        NO_MORE_DOCS,
    ) by {}
    lemma_ranges_searched(
        weight,
        before,
        after,
        ranges,
        limited,
        reliable,
        partial_before,
        partial_after,
        r,
    )
}

/// A search of partitions of leaves goes through them in order, up to the first one that fails. As
/// [`leaves_are_searched_in_full`] says of whole leaves, what is collected are live documents that
/// match, here those from the first document of the partition to its last one (exclusive).
pub proof fn partitions_are_searched_in_full<W: Weight>(
    weight: W,
    before: Seq<SearchEvent<W>>,
    after: Seq<SearchEvent<W>>,
    partitions: Seq<LeafReaderContextPartition>,
    limited: bool,
    reliable: bool,
    partial_before: bool,
    partial_after: bool,
    r: Result<(), LuceneError>,
) -> (at: Seq<int>)
    requires
        searched(
            weight,
            before,
            after,
            ranges_of(partitions),
            limited,
            reliable,
            partial_before,
            partial_after,
            r,
        ),
    ensures
        r is Ok ==> at.len() == partitions.len(),
        r is Err ==> 0 < at.len() <= partitions.len(),
        before.len() < after.len() && after.take(before.len() as int) == before,
        after[before.len() as int] == SearchEvent::WeightSet(weight),
        at.len() > 0 ==> at[0] == before.len() + 1,
        at.len() == 0 ==> after.len() == before.len() + 1,
        forall|k: int|
            0 <= k < at.len() ==> {
                &&& 0 <= (#[trigger] at[k]) < after.len()
                &&& after[at[k]] matches SearchEvent::Opened(id, outcome) && id == partitions[k].ctx.id && (r
                    is Ok || k < at.len() - 1 ==> {
                    let next = if k < at.len() - 1 {
                        at[k + 1]
                    } else {
                        after.len() as int
                    };
                    if outcome is Ready {
                        &&& next == at[k] + 2
                        &&& after[at[k] + 1] matches SearchEvent::Finished(
                            finished,
                            collected,
                            floor,
                            ended,
                            accepted,
                        ) && finished == partitions[k].ctx.id && accepted is Ok && match weight.supplier(*partitions[k].ctx) {
                            Err(_) => false,
                            Ok(None) => collected.len() == 0,
                            Ok(Some(supplier)) => {
                                let all = supplier.bulk_supplied().remaining();
                                &&& forall|i: int|
                                    0 <= i < collected.len() ==> {
                                        let (d, score) = #[trigger] collected[i];
                                        &&& partitions[k].min_doc_id <= d < partitions[k].max_doc_id && all.dom().contains(d) && 0 <= score <= all[d]
                                        &&& partitions[k].ctx.live_docs matches Some(bits) ==> 0 <= d < bits@.len() && bits@[d]
                                    }
                                &&& forall|i: int, j: int|
                                    0 <= i < j < collected.len() ==> (#[trigger] collected[i]).0 < (
                                    #[trigger] collected[j]).0
                                &&& !ended && (!limited || !partial_after) ==> forall|d: int|
                                    #![trigger all.dom().contains(d)]
                                    all.dom().contains(d) && partitions[k].min_doc_id <= d < partitions[k].max_doc_id && all[d] >= floor && (
                                    partitions[k].ctx.live_docs matches Some(bits) ==> 0 <= d < bits@.len() && bits@[d])
                                        ==> collected.contains((d, all[d]))
                            },
                        }
                    } else {
                        outcome is Terminated && next == at[k] + 1
                    }
                })
            },
{
    let ranges = ranges_of(partitions);
    assert(ranges.len() == partitions.len());
    assert forall|k: int| 0 <= k < partitions.len() implies (#[trigger] ranges[k]) == (
        *partitions[k].ctx,
        partitions[k].min_doc_id,
        partitions[k].max_doc_id,
    ) by {}
    lemma_ranges_searched(
        weight,
        before,
        after,
        ranges,
        limited,
        reliable,
        partial_before,
        partial_after,
        r,
    )
}

/// Where the element at position `p` of group `s` stands among all elements.
spec fn place<T>(groups: Seq<Seq<T>>, s: int, p: int) -> int {
    flattened(groups.take(s)).len() + p
}

proof fn lemma_place<T>(groups: Seq<Seq<T>>, s: int, p: int)
    requires
        0 <= s < groups.len(),
        0 <= p < groups[s].len(),
    ensures
        0 <= place(groups, s, p) < flattened(groups).len(),
        flattened(groups)[place(groups, s, p)] == groups[s][p],
{
    lemma_flattened_split(groups, s);
}

proof fn lemma_find_place<T>(groups: Seq<Seq<T>>, k: int) -> (found: (int, int))
    requires
        0 <= k < flattened(groups).len(),
    ensures
        0 <= found.0 < groups.len(),
        0 <= found.1 < groups[found.0].len(),
        place(groups, found.0, found.1) == k,
    decreases groups.len(),
{
    let last = groups.len() - 1;
    assert(groups.take(last) =~= groups.drop_last());
    if k >= flattened(groups.drop_last()).len() {
        (last, k - flattened(groups.drop_last()).len())
    } else {
        let found = lemma_find_place(groups.drop_last(), k);
        assert(groups.drop_last().take(found.0) =~= groups.take(found.0));
        found
    }
}

proof fn lemma_places_increase<T>(groups: Seq<Seq<T>>, s: int, t: int)
    requires
        0 <= s < t <= groups.len(),
    ensures
        flattened(groups.take(s)).len() + groups[s].len() <= flattened(groups.take(t)).len(),
    decreases t,
{
    lemma_flattened_take(groups, t - 1);
    if s < t - 1 {
        lemma_places_increase(groups, s, t - 1);
    }
}

proof fn lemma_flattened_singles<T>(groups: Seq<Seq<T>>)
    requires
        forall|k: int| 0 <= k < groups.len() ==> (#[trigger] groups[k]).len() == 1,
    ensures
        flattened(groups).len() == groups.len(),
        forall|k: int| 0 <= k < groups.len() ==> #[trigger] flattened(groups)[k] == groups[k][0],
    decreases groups.len(),
{
    if groups.len() > 0 {
        let rest = groups.drop_last();
        assert forall|k: int| 0 <= k < rest.len() implies (#[trigger] rest[k]).len() == 1 by {
            assert(rest[k] == groups[k]);
        }
        lemma_flattened_singles(rest);
        assert forall|k: int| 0 <= k < groups.len() implies #[trigger] flattened(groups)[k]
            == groups[k][0] by {
            if k < rest.len() {
                assert(flattened(rest)[k] == rest[k][0]);
            }
        }
    }
}

proof fn lemma_flattened_ranges(groups: Seq<Seq<Arc<LeafReaderContext>>>)
    ensures
        flattened(groups.map_values(|g: Seq<Arc<LeafReaderContext>>| entire_leaves(g)))
            == entire_leaves(flattened(groups)),
    decreases groups.len(),
{
    let ranges = groups.map_values(|g: Seq<Arc<LeafReaderContext>>| entire_leaves(g));
    if groups.len() > 0 {
        lemma_flattened_ranges(groups.drop_last());
        assert(ranges.drop_last() =~= groups.drop_last().map_values(
            |g: Seq<Arc<LeafReaderContext>>| entire_leaves(g),
        ));
    }
    assert(flattened(ranges) =~= entire_leaves(flattened(groups)));
}

/// The ranges that leaves are divided into.
spec fn all_ranges(
    leaves: Seq<Arc<LeafReaderContext>>,
    max_docs: int,
    allow_segment_partitions: bool,
) -> Seq<LeafReaderContextPartition> {
    if allow_segment_partitions {
        pieces(leaves, max_docs)
    } else {
        entire_leaves(leaves)
    }
}

proof fn lemma_parts_of_leaf(ctx: Arc<LeafReaderContext>, max_docs: int)
    requires
        0 < max_docs < ctx.max_doc,
    ensures
        ({
            let parts = flattened(split_leaf(ctx, num_parts(ctx.max_doc as int, max_docs)));
            &&& forall|k: int|
                0 <= k < parts.len() ==> (#[trigger] parts[k]).ctx == ctx && 0
                    <= parts[k].min_doc_id < parts[k].max_doc_id
            &&& forall|k: int, j: int|
                0 <= k < j < parts.len() ==> (#[trigger] parts[k]).max_doc_id <= (
                #[trigger] parts[j]).min_doc_id
        }),
{
    let m = ctx.max_doc as int;
    let n = num_parts(m, max_docs);
    let split = split_leaf(ctx, n);
    lemma_num_parts(m, max_docs);
    assert forall|k: int| 0 <= k < split.len() implies (#[trigger] split[k]).len() == 1 by {}
    lemma_flattened_singles(split);
    let parts = flattened(split);
    let size = m / n;
    assert(size >= 1 && n * size <= m) by (nonlinear_arith)
        requires
            size == m / n,
            2 <= n <= 5,
            n <= m,
    ;
    assert forall|k: int| 0 <= k < parts.len() implies (#[trigger] parts[k]).ctx == ctx && 0
        <= parts[k].min_doc_id < parts[k].max_doc_id by {
        split_covers_leaf(ctx, max_docs, k);
        assert(parts[k] == split[k][0]);
        assert(0 <= k * size <= n * size) by (nonlinear_arith)
            requires
                0 <= k < n,
                size >= 1,
        ;
    }
    assert forall|k: int, j: int| 0 <= k < j < parts.len() implies (#[trigger] parts[k]).max_doc_id
        <= (#[trigger] parts[j]).min_doc_id by {
        assert(parts[k] == split[k][0]);
        assert(parts[j] == split[j][0]);
        assert(0 <= (k + 1) * size <= j * size && j * size <= n * size) by (nonlinear_arith)
            requires
                0 <= k < j < n,
                size >= 1,
        ;
    }
}

proof fn lemma_find_part(ctx: Arc<LeafReaderContext>, max_docs: int, d: int) -> (k: int)
    requires
        0 < max_docs < ctx.max_doc,
        0 <= d < ctx.max_doc,
    ensures
        ({
            let parts = flattened(split_leaf(ctx, num_parts(ctx.max_doc as int, max_docs)));
            0 <= k < parts.len() && parts[k].min_doc_id <= d < parts[k].max_doc_id
        }),
{
    let m = ctx.max_doc as int;
    let n = num_parts(m, max_docs);
    let split = split_leaf(ctx, n);
    lemma_num_parts(m, max_docs);
    assert forall|k: int| 0 <= k < split.len() implies (#[trigger] split[k]).len() == 1 by {}
    lemma_flattened_singles(split);
    let size = m / n;
    assert(size >= 1 && n * size <= m) by (nonlinear_arith)
        requires
            size == m / n,
            2 <= n <= 5,
            n <= m,
    ;
    let q = d / size;
    assert(q >= 0 && q * size <= d < (q + 1) * size) by (nonlinear_arith)
        requires
            q == d / size,
            size >= 1,
            d >= 0,
    ;
    let k = if q >= n {
        n - 1
    } else {
        q
    };
    assert(0 <= k * size <= d && (k + 1) * size <= n * size) by (nonlinear_arith)
        requires
            0 <= k < n,
            k <= q,
            q * size <= d,
            size >= 1,
    ;
    assert(flattened(split)[k] == split[k][0]);
    k
}

proof fn lemma_range_of_leaf(
    leaves: Seq<Arc<LeafReaderContext>>,
    max_docs: int,
    allow_segment_partitions: bool,
    k: int,
) -> (l: int)
    requires
        0 < max_docs,
        0 <= k < all_ranges(leaves, max_docs, allow_segment_partitions).len(),
    ensures
        0 <= l < leaves.len(),
        all_ranges(leaves, max_docs, allow_segment_partitions)[k].ctx == leaves[l],
        0 <= all_ranges(leaves, max_docs, allow_segment_partitions)[k].min_doc_id
            < all_ranges(leaves, max_docs, allow_segment_partitions)[k].max_doc_id,
    decreases leaves.len(),
{
    if !allow_segment_partitions {
        k
    } else {
        let before = pieces(leaves.drop_last(), max_docs);
        let leaf = leaves.last();
        if k < before.len() {
            lemma_range_of_leaf(leaves.drop_last(), max_docs, true, k)
        } else {
            if leaf.max_doc > max_docs {
                lemma_parts_of_leaf(leaf, max_docs);
                let parts = flattened(
                    split_leaf(leaf, num_parts(leaf.max_doc as int, max_docs)),
                );
                assert(pieces(leaves, max_docs)[k] == parts[k - before.len()]);
            }
            leaves.len() - 1
        }
    }
}

proof fn lemma_find_range(
    leaves: Seq<Arc<LeafReaderContext>>,
    max_docs: int,
    allow_segment_partitions: bool,
    l: int,
    d: int,
) -> (k: int)
    requires
        0 < max_docs,
        0 <= l < leaves.len(),
        0 <= d < leaves[l].max_doc,
    ensures
        ({
            let ranges = all_ranges(leaves, max_docs, allow_segment_partitions);
            0 <= k < ranges.len() && ranges[k].ctx == leaves[l] && ranges[k].min_doc_id <= d
                < ranges[k].max_doc_id
        }),
    decreases leaves.len(),
{
    if !allow_segment_partitions {
        l
    } else {
        let before = pieces(leaves.drop_last(), max_docs);
        let leaf = leaves.last();
        if l < leaves.len() - 1 {
            lemma_find_range(leaves.drop_last(), max_docs, true, l, d)
        } else if leaf.max_doc > max_docs {
            lemma_parts_of_leaf(leaf, max_docs);
            let k = lemma_find_part(leaf, max_docs, d);
            let parts = flattened(split_leaf(leaf, num_parts(leaf.max_doc as int, max_docs)));
            assert(pieces(leaves, max_docs)[before.len() + k] == parts[k]);
            before.len() + k
        } else {
            before.len() as int
        }
    }
}

proof fn lemma_ranges_disjoint(
    leaves: Seq<Arc<LeafReaderContext>>,
    max_docs: int,
    allow_segment_partitions: bool,
    k: int,
    j: int,
)
    requires
        0 < max_docs,
        forall|i: int, j: int|
            0 <= i < j < leaves.len() ==> (#[trigger] leaves[i]).id != (#[trigger] leaves[j]).id,
        0 <= k < j < all_ranges(leaves, max_docs, allow_segment_partitions).len(),
        all_ranges(leaves, max_docs, allow_segment_partitions)[k].ctx.id == all_ranges(
            leaves,
            max_docs,
            allow_segment_partitions,
        )[j].ctx.id,
    ensures
        all_ranges(leaves, max_docs, allow_segment_partitions)[k].max_doc_id <= all_ranges(
            leaves,
            max_docs,
            allow_segment_partitions,
        )[j].min_doc_id,
    decreases leaves.len(),
{
    if !allow_segment_partitions {
        assert(leaves[k].id != leaves[j].id);
    } else {
        let before = pieces(leaves.drop_last(), max_docs);
        let leaf = leaves.last();
        if j < before.len() {
            lemma_ranges_disjoint(leaves.drop_last(), max_docs, true, k, j);
        } else if leaf.max_doc > max_docs {
            lemma_parts_of_leaf(leaf, max_docs);
            let parts = flattened(split_leaf(leaf, num_parts(leaf.max_doc as int, max_docs)));
            assert(pieces(leaves, max_docs)[j] == parts[j - before.len()]);
            if k < before.len() {
                let l = lemma_range_of_leaf(leaves.drop_last(), max_docs, true, k);
                assert(leaves[l].id != leaves[leaves.len() - 1].id);
            } else {
                assert(pieces(leaves, max_docs)[k] == parts[k - before.len()]);
            }
        } else {
            let l = lemma_range_of_leaf(leaves.drop_last(), max_docs, true, k);
            assert(leaves[l].id != leaves[leaves.len() - 1].id);
        }
    }
}

/// The ranges of the groups of slices, in order.
proof fn lemma_ranges_of_groups(
    sorted: Seq<Arc<LeafReaderContext>>,
    max_docs: int,
    max_segments: int,
    allow_segment_partitions: bool,
)
    ensures
        flattened(slice_groups(sorted, max_docs, max_segments, allow_segment_partitions))
            == all_ranges(sorted, max_docs, allow_segment_partitions),
{
    if allow_segment_partitions {
        groups_keep_pieces(sorted, max_docs, max_segments);
    } else {
        groups_keep_leaves(sorted, max_docs, max_segments);
        lemma_flattened_ranges(grouped_leaves(sorted, max_docs, max_segments).groups);
    }
}

/// Each document of each leaf is in one range of one slice, and in no other. `found` is the
/// position of the slice and that of the range in it.
pub proof fn slices_hold_every_document(
    leaves: Seq<Arc<LeafReaderContext>>,
    max_docs: int,
    max_segments: int,
    allow_segment_partitions: bool,
    slices: Vec<LeafSlice>,
    l: int,
    d: int,
) -> (found: (int, int))
    requires
        slices_of(leaves, max_docs, max_segments, allow_segment_partitions, Ok(slices)),
        0 < max_docs <= i32::MAX,
        leaves.len() <= usize::MAX,
        forall|i: int, j: int|
            0 <= i < j < leaves.len() ==> (#[trigger] leaves[i]).id != (#[trigger] leaves[j]).id,
        0 <= l < leaves.len(),
        0 <= d < leaves[l].max_doc,
    ensures
        0 <= found.0 < slices@.len(),
        0 <= found.1 < slices@[found.0].partitions@.len(),
        ({
            let range = slices@[found.0].partitions@[found.1];
            range.ctx == leaves[l] && range.min_doc_id <= d < range.max_doc_id
        }),
        forall|s: int, p: int|
            0 <= s < slices@.len() && 0 <= p < slices@[s].partitions@.len() && {
                let range = #[trigger] slices@[s].partitions@[p];
                range.ctx.id == leaves[l].id && range.min_doc_id <= d < range.max_doc_id
            } ==> (s, p) == found,
{
    let sorted = choose|sorted: Seq<Arc<LeafReaderContext>>| #[trigger]
        is_sorted_by(leaves, by_decreasing_size(leaves), sorted) && slices_hold(
            slices@,
            slice_groups(sorted, max_docs, max_segments, allow_segment_partitions),
        );
    let groups = slice_groups(sorted, max_docs, max_segments, allow_segment_partitions);
    let ranges = all_ranges(sorted, max_docs, allow_segment_partitions);
    lemma_ranges_of_groups(sorted, max_docs, max_segments, allow_segment_partitions);
    let order = choose|order: Seq<usize>| #[trigger]
        is_stable_order(by_decreasing_size(leaves), leaves.len() as int, order) && sorted
            == Seq::new(leaves.len(), |i: int| leaves[order[i] as int]);
    assert(order.contains(l as usize));
    let i = order.index_of(l as usize);
    assert forall|i: int, j: int| 0 <= i < j < sorted.len() implies (#[trigger] sorted[i]).id != (
    #[trigger] sorted[j]).id by {
        let (a, b) = (order[i] as int, order[j] as int);
        assert(a != b);
        assert(leaves[a].id != leaves[b].id);
    }
    let k = lemma_find_range(sorted, max_docs, allow_segment_partitions, i, d);
    let (s, q) = lemma_find_place(groups, k);
    lemma_place(groups, s, q);
    let inner = lemma_order_of_slice(slices@[s], groups[s]);
    assert(slices@[s].partitions.len() == groups[s].len());
    assert(inner.contains(q as usize));
    let p = inner.index_of(q as usize);
    assert forall|s2: int, p2: int|
        0 <= s2 < slices@.len() && 0 <= p2 < slices@[s2].partitions@.len() && {
            let range = #[trigger] slices@[s2].partitions@[p2];
            range.ctx.id == leaves[l].id && range.min_doc_id <= d < range.max_doc_id
        } implies (s2, p2) == (s, p) by {
        let inner2 = lemma_order_of_slice(slices@[s2], groups[s2]);
        let q2 = inner2[p2] as int;
        lemma_place(groups, s2, q2);
        let k2 = place(groups, s2, q2);
        if k2 < k {
            lemma_ranges_disjoint(sorted, max_docs, allow_segment_partitions, k2, k);
        }
        if k < k2 {
            lemma_ranges_disjoint(sorted, max_docs, allow_segment_partitions, k, k2);
        }
        if s2 < s {
            lemma_places_increase(groups, s2, s);
        }
        if s < s2 {
            lemma_places_increase(groups, s, s2);
        }
        assert(s2 == s);
        assert(q2 == q);
        assert(groups[s2] == groups[s]);
        assert(inner2 == inner);
        assert(inner[p2] == inner[p]);
    }
    (s, p)
}

proof fn lemma_order_of_slice(slice: LeafSlice, group: Seq<LeafReaderContextPartition>) -> (order:
    Seq<usize>)
    requires
        slice.holds(group),
    ensures
        is_stable_order(by_first_doc(group), group.len() as int, order),
        slice.partitions@.len() == group.len(),
        forall|i: int|
            0 <= i < group.len() ==> #[trigger] slice.partitions@[i] == group[order[i] as int],
        order == order_of_slice(slice, group),
{
    order_of_slice(slice, group)
}

/// The order in which a slice holds the ranges.
spec fn order_of_slice(slice: LeafSlice, group: Seq<LeafReaderContextPartition>) -> Seq<usize> {
    choose|order: Seq<usize>| #[trigger]
        is_stable_order(by_first_doc(group), group.len() as int, order) && slice.partitions@
            == Seq::new(group.len(), |i: int| group[order[i] as int])
}

/// Every range of a slice is one of a leaf that is divided, and starts before it ends.
pub proof fn slices_hold_only_documents_of_leaves(
    leaves: Seq<Arc<LeafReaderContext>>,
    max_docs: int,
    max_segments: int,
    allow_segment_partitions: bool,
    slices: Vec<LeafSlice>,
    s: int,
    p: int,
)
    requires
        slices_of(leaves, max_docs, max_segments, allow_segment_partitions, Ok(slices)),
        0 < max_docs <= i32::MAX,
        0 <= s < slices@.len(),
        0 <= p < slices@[s].partitions@.len(),
    ensures
        leaves.contains(slices@[s].partitions@[p].ctx),
        0 <= slices@[s].partitions@[p].min_doc_id < slices@[s].partitions@[p].max_doc_id,
{
    let sorted = choose|sorted: Seq<Arc<LeafReaderContext>>| #[trigger]
        is_sorted_by(leaves, by_decreasing_size(leaves), sorted) && slices_hold(
            slices@,
            slice_groups(sorted, max_docs, max_segments, allow_segment_partitions),
        );
    let groups = slice_groups(sorted, max_docs, max_segments, allow_segment_partitions);
    lemma_ranges_of_groups(sorted, max_docs, max_segments, allow_segment_partitions);
    let inner = lemma_order_of_slice(slices@[s], groups[s]);
    let q = inner[p] as int;
    lemma_place(groups, s, q);
    let l = lemma_range_of_leaf(
        sorted,
        max_docs,
        allow_segment_partitions,
        place(groups, s, q),
    );
    let order = choose|order: Seq<usize>| #[trigger]
        is_stable_order(by_decreasing_size(leaves), leaves.len() as int, order) && sorted
            == Seq::new(leaves.len(), |i: int| leaves[order[i] as int]);
    assert(leaves[order[l] as int] == sorted[l]);
}

impl LeafReaderContextPartition {
    /// A range of documents of a leaf can be made exactly when it is not empty and starts at a
    /// document of the leaf; it is then what was asked for.
    pub proof fn ranges_are_checked(
        ctx: Arc<LeafReaderContext>,
        min_doc_id: i32,
        max_doc_id: i32,
        r: Result<LeafReaderContextPartition, LuceneError>,
    )
        requires
            call_ensures(
                LeafReaderContextPartition::create_from_and_to,
                (ctx, min_doc_id, max_doc_id),
                r,
            ),
            max_doc_id != NO_MORE_DOCS,
            i32::MIN <= max_doc_id - min_doc_id <= i32::MAX,
        ensures
            r is Ok <==> 0 <= min_doc_id < max_doc_id && min_doc_id < ctx.max_doc,
            r matches Ok(p) ==> p.ctx == ctx && p.min_doc_id == min_doc_id && p.max_doc_id
                == max_doc_id && p.max_docs == max_doc_id - min_doc_id,
    {
    }

    /// The range of a whole leaf holds each of its documents.
    pub proof fn whole_leaves_are_held(
        ctx: Arc<LeafReaderContext>,
        r: Result<LeafReaderContextPartition, LuceneError>,
        d: int,
    )
        requires
            call_ensures(LeafReaderContextPartition::create_for_entire_segment, (ctx,), r),
            0 <= d < ctx.max_doc,
        ensures
            r matches Ok(p) && p.ctx == ctx && p.min_doc_id <= d < p.max_doc_id && p.max_docs
                == ctx.max_doc,
    {
    }
}

impl LeafSlice {
    /// A slice has the ranges that it is made of, each as often, in the order of their leaves and
    /// then of their first documents.
    pub proof fn ranges_are_kept_in_order(
        partitions: Vec<LeafReaderContextPartition>,
        r: LeafSlice,
    )
        requires
            call_ensures(LeafSlice::new, (partitions,), r),
        ensures
            r.partitions@.len() == partitions@.len(),
            r.partitions@.to_multiset() == partitions@.to_multiset(),
            forall|i: int, j: int|
                0 <= i < j < r.partitions@.len() ==> {
                    let (a, b) = (#[trigger] r.partitions@[i], #[trigger] r.partitions@[j]);
                    a.ctx.doc_base < b.ctx.doc_base || a.ctx.doc_base == b.ctx.doc_base
                        && a.min_doc_id <= b.min_doc_id
                },
    {
        let ps = partitions@;
        let order = lemma_order_of_slice(r, ps);
        let keys = by_first_doc(ps);
        assert(partitions.len() == ps.len());
        lemma_reordered_multiset(ps, order);
        assert(r.partitions@ =~= Seq::new(order.len(), |i: int| ps[order[i] as int]));
        assert forall|i: int, j: int| 0 <= i < j < r.partitions@.len() implies {
            let (a, b) = (#[trigger] r.partitions@[i], #[trigger] r.partitions@[j]);
            a.ctx.doc_base < b.ctx.doc_base || a.ctx.doc_base == b.ctx.doc_base && a.min_doc_id
                <= b.min_doc_id
        } by {
            let (a, b) = (order[i] as int, order[j] as int);
            assert(keys[a] == (ps[a].ctx.doc_base as i64, ps[a].min_doc_id as i64));
            assert(keys[b] == (ps[b].ctx.doc_base as i64, ps[b].min_doc_id as i64));
        }
    }
}

/// What is put in another order stays the same.
proof fn lemma_reordered_multiset<T>(items: Seq<T>, order: Seq<usize>)
    requires
        order.len() == items.len(),
        items.len() <= usize::MAX,
        order.no_duplicates(),
        forall|i: int| 0 <= i < order.len() ==> #[trigger] order[i] < items.len(),
    ensures
        Seq::new(order.len(), |i: int| items[order[i] as int]).to_multiset()
            == items.to_multiset(),
    decreases items.len(),
{
    broadcast use vstd::seq_lib::group_to_multiset_ensures;

    let mixed = Seq::new(order.len(), |i: int| items[order[i] as int]);
    if items.len() == 0 {
        assert(mixed =~= items);
    } else {
        let n = (items.len() - 1) as usize;
        assert(order.contains(n)) by {
            lemma_order_holds_all(order, n as int);
        }
        let q = order.index_of(n);
        let rest = order.remove(q);
        let fewer = items.drop_last();
        assert forall|i: int| 0 <= i < rest.len() implies #[trigger] rest[i] < fewer.len() by {
            let o = if i < q {
                i
            } else {
                i + 1
            };
            assert(rest[i] == order[o]);
            assert(order[o] != order[q]);
        }
        assert(rest.no_duplicates()) by {
            assert forall|i: int, j: int|
                0 <= i < rest.len() && 0 <= j < rest.len() && i != j implies rest[i]
                != rest[j] by {
                let a = if i < q {
                    i
                } else {
                    i + 1
                };
                let b = if j < q {
                    j
                } else {
                    j + 1
                };
                assert(rest[i] == order[a] && rest[j] == order[b]);
            }
        }
        lemma_reordered_multiset(fewer, rest);
        let less = Seq::new(rest.len(), |i: int| fewer[rest[i] as int]);
        assert(mixed.remove(q) =~= less);
        assert(items.drop_last().push(items.last()) =~= items);
        assert(mixed =~= less.insert(q, items.last()));
    }
}

/// As many different positions as there are hold all of them.
proof fn lemma_order_holds_all(order: Seq<usize>, p: int)
    requires
        order.no_duplicates(),
        forall|i: int| 0 <= i < order.len() ==> #[trigger] order[i] < order.len(),
        0 <= p < order.len() <= usize::MAX,
    ensures
        order.contains(p as usize),
{
    let values = order.map_values(|x: usize| x as int);
    assert(values.no_duplicates());
    values.unique_seq_to_set();
    lemma_int_range(0, order.len() as int);
    assert(values.to_set().subset_of(set_int_range(0, order.len() as int))) by {
        assert forall|v: int| values.to_set().contains(v) implies set_int_range(
            0,
            order.len() as int,
        ).contains(v) by {
            let i = choose|i: int| 0 <= i < values.len() && values[i] == v;
            assert(order[i] < order.len());
        }
    }
    lemma_subset_equality(values.to_set(), set_int_range(0, order.len() as int));
    assert(values.to_set().contains(p));
    let i = choose|i: int| 0 <= i < values.len() && values[i] == p;
    assert(order[i] == p as usize);
}

/// The sum over leaves adds up the numbers of the leaves that have the field: it is 0 without
/// leaves, a leaf that does not have the field adds nothing, and the sums of two lists of leaves
/// make up that of both.
pub proof fn sums_add_up(
    a: Seq<Option<FieldStatistics>>,
    b: Seq<Option<FieldStatistics>>,
    stats: FieldStatistics,
    f: spec_fn(FieldStatistics) -> int,
)
    ensures
        sum_over(Seq::empty(), f) == 0,
        sum_over(seq![None], f) == 0,
        sum_over(seq![Some(stats)], f) == f(stats),
        sum_over(a + b, f) == sum_over(a, f) + sum_over(b, f),
        doc_counts()(stats) == stats.doc_count,
        total_term_freqs()(stats) == stats.sum_total_term_freq,
        doc_freqs()(stats) == stats.sum_doc_freq,
    decreases b.len(),
{
    reveal_with_fuel(sum_over, 2);
    assert(seq![None::<FieldStatistics>].drop_last() =~= Seq::empty());
    assert(seq![Some(stats)].drop_last() =~= Seq::empty());
    if b.len() == 0 {
        assert(a + b =~= a);
    } else {
        sums_add_up(a, b.drop_last(), stats, f);
        assert((a + b).drop_last() =~= a + b.drop_last());
    }
}

impl<S, C, P, T: QueryTimeout, E> IndexSearcher<S, C, P, T, E> {
    /// A search after a hit collects no more hits than were asked for and than there are documents,
    /// but as many as that allows; an index without documents is taken to have one.
    pub proof fn hits_are_capped(&self, after: Option<ScoreDoc>, num_hits: i32, r: Result<i32, LuceneError>)
        requires
            call_ensures(
                IndexSearcher::<S, C, P, T, E>::check_after,
                (self, after, num_hits),
                r,
            ),
        ensures
            r matches Ok(n) ==> {
                &&& n <= num_hits
                &&& n <= self.reader.max_doc || n <= 1
                &&& n < num_hits ==> n == self.reader.max_doc || n == 1 && self.reader.max_doc < 1
            },
            r is Ok <==> (after matches Some(a) ==> a.doc < self.reader.max_doc || a.doc < 1),
            forall|n: i32| r == Ok::<i32, LuceneError>(n) ==> #[trigger] capped_hits(
                num_hits,
                self.reader.max_doc,
            ) == n,
    {
    }

    /// A document is explained by the leaf that holds it: a document that the live documents of the
    /// leaf leave out is no match, and any other is explained as what the query says of it in the
    /// leaf, where it is counted from the first document of the leaf.
    pub proof fn documents_are_explained_in_their_leaf<W: Weight>(
        &self,
        weight: &Arc<W>,
        doc: i32,
        n: int,
        r: Result<Explanation, LuceneError>,
    )
        requires
            self.can_explain(doc),
            call_ensures(
                IndexSearcher::<S, C, P, T, E>::explain_weight::<W>,
                (self, weight, doc),
                r,
            ),
            0 <= n < self.leaf_contexts@.len(),
            self.leaf_contexts@[n].doc_base <= doc,
            n + 1 < self.leaf_contexts@.len() ==> doc < self.leaf_contexts@[n + 1].doc_base,
        ensures
            ({
                let leaf = self.leaf_contexts@[n];
                let d = doc - leaf.doc_base;
                &&& (leaf.live_docs matches Some(bits) && !bits@[d]) ==> (r matches Ok(e)
                    && !e.is_match)
                &&& (leaf.live_docs matches Some(bits) ==> bits@[d]) ==> r == weight.explained(
                    *leaf,
                    d as i32,
                )
            }),
    {
        let leaves = self.leaf_contexts@;
        assert(is_leaf_of(leaves, doc as int, n)) by {
            assert forall|i: int| n < i < leaves.len() implies (#[trigger] leaves[i]).doc_base
                > doc by {
                if i > n + 1 {
                    assert(leaves[n + 1].doc_base <= leaves[i].doc_base);
                }
            }
        }
    }

    /// A query that is searched with scores is never read from the cache; one that is searched
    /// without scores is, where there is a cache and a policy for it.
    pub proof fn scores_are_never_cached<Q: SearchableQuery>(
        &self,
        query: Q,
        score_mode: ScoreMode,
        boost: i32,
    ) where C: QueryCache<Q::W, P>
        ensures
            score_mode == ScoreMode::COMPLETE || score_mode == ScoreMode::TOP_SCORES || score_mode
                == ScoreMode::TOP_DOCS_WITH_SCORES ==> self.prepared(query, score_mode, boost)
                == query.weight(score_mode, boost),
            self.query_cache is None || self.query_caching_policy is None ==> self.prepared(
                query,
                score_mode,
                boost,
            ) == query.weight(score_mode, boost),
            (score_mode == ScoreMode::COMPLETE_NO_SCORES || score_mode == ScoreMode::TOP_DOCS) && (
            self.query_cache is Some && self.query_caching_policy is Some) ==> self.prepared(
                query,
                score_mode,
                boost,
            ) == self.query_cache->0.cached(
                query.weight(score_mode, boost),
                *self.query_caching_policy->0,
            ),
    {
    }

    /// A search with a manager that succeeds has searched every range of every slice with a new
    /// collector, one for each slice, and combines what these have collected; the slices are those
    /// that were known, or the ones that the leaves are divided into. The result is partial exactly
    /// when it was before or the time ran out in a slice. `found` are what the collectors need, the
    /// collectors before and after the search, and whether the time ran out in each slice.
    pub proof fn every_slice_is_searched<Q: SearchableQuery, M: CollectorManager<Q::W>>(
        &self,
        after: Self,
        query: Q,
        manager: M,
        defaults: SearchDefaults<S, C, P>,
        r: Result<M::Output, LuceneError>,
    ) -> (found: (ScoreMode, Seq<M::C>, Seq<M::C>, Seq<bool>)) where C: QueryCache<Q::W, P>
        requires
            self.managed::<Q, M>(after, query, manager, defaults, r),
            r is Ok,
        ensures
            after.leaf_contexts == self.leaf_contexts,
            after.leaf_slices is Some && after.leaf_slices->0 is Ok,
            self.leaf_slices is Some ==> self.leaf_slices == after.leaf_slices,
            self.leaf_slices is None ==> slices_of(
                self.leaf_contexts@,
                250_000,
                5,
                false,
                Ok(after.leaf_slices->0->Ok_0),
            ),
            manager.combines(found.2, r),
            found.1.len() == found.2.len(),
            found.2.len() == if after.leaf_slices->0->Ok_0@.len() == 0 {
                1
            } else {
                after.leaf_slices->0->Ok_0@.len()
            },
            found.3.len() == after.leaf_slices->0->Ok_0@.len(),
            forall|i: int|
                0 <= i < found.1.len() ==> manager.fresh(#[trigger] found.1[i])
                    && found.1[i].mode() == found.0,
            after.leaf_slices->0->Ok_0@.len() == 0 ==> found.2[0] == found.1[0],
            forall|i: int|
                0 <= i < after.leaf_slices->0->Ok_0@.len() ==> searched(
                    self.prepared(final_form(query), found.0, UNIT_BOOST),
                    found.1[i].events(),
                    (#[trigger] found.2[i]).events(),
                    ranges_of(after.leaf_slices->0->Ok_0@[i].partitions@),
                    self.may_run_out(),
                    found.1[i].reliable(),
                    false,
                    found.3[i],
                    Ok(()),
                ),
            after.partial_result <==> self.partial_result || found.3.contains(true),
    {
        let q = final_form(query);
        let slices = after.leaf_slices->0->Ok_0;
        let mode = choose|mode: ScoreMode| #[trigger]
            combined(
                manager,
                self.prepared(q, mode, UNIT_BOOST),
                mode,
                slices@,
                self.may_run_out(),
                self.partial_result,
                after.partial_result,
                r,
            );
        let weight = self.prepared(q, mode, UNIT_BOOST);
        let (fresh, collectors, late) = choose|
            fresh: Seq<M::C>,
            collectors: Seq<M::C>,
            late: Seq<bool>,
        | #[trigger]
            collected_by(
                manager,
                weight,
                mode,
                slices@,
                self.may_run_out(),
                fresh,
                collectors,
                late,
            ) && manager.combines(collectors, r) && after.partial_result == (self.partial_result
                || late.contains(true));
        assert forall|i: int|
            0 <= i < slices@.len() implies searched(
            weight,
            fresh[i].events(),
            (#[trigger] collectors[i]).events(),
            ranges_of(slices@[i].partitions@),
            self.may_run_out(),
            fresh[i].reliable(),
            false,
            late[i],
            Ok(()),
        ) by {
            assert(slice_collected::<Q::W, M::C>(
                slices@[i],
                weight,
                self.may_run_out(),
                fresh[i],
                collectors[i],
                late[i],
            ));
        }
        if self.leaf_slices is None {
            let d = choose|d: Result<Vec<LeafSlice>, LuceneError>| #[trigger]
                slices_of(
                    self.leaf_contexts@,
                    MAX_DOCS_PER_SLICE as int,
                    MAX_SEGMENTS_PER_SLICE as int,
                    false,
                    d,
                ) && match d {
                    Err(e) => after.leaf_slices->0 matches Err(m) && m@ == e.text(),
                    Ok(s) => if forall|i: int|
                        0 <= i < s@.len() ==> distinct_leaves((#[trigger] s@[i]).partitions@) {
                        after.leaf_slices->0 == Ok::<Vec<LeafSlice>, String>(s)
                    } else {
                        after.leaf_slices->0 matches Err(m) && m@ == SAME_LEAF@
                    },
                };
            assert(d == Ok::<Vec<LeafSlice>, LuceneError>(slices));
        }
        (mode, fresh, collectors, late)
    }
}

} // verus!
