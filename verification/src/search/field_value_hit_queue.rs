//! The best hits of a search that sorts them by the values of fields, the worst of them
//! first.

use vstd::prelude::*;
use vstd::string::*;

use crate::error::LuceneError;
use crate::search::doc_id_set_iterator::{DocIdSetIterator, NO_MORE_DOCS};
use crate::search::field_comparator::{
    keeps_keys, BinaryDocValuesSource, FieldComparator, RelevanceComparator, Scorable, SortValue,
    TermValComparator,
};
use crate::search::field_comparator_source::{FieldComparatorSource, Pruning, SortField};
use crate::search::field_doc::FieldDoc;
use crate::search::index_searcher::{LeafReaderContext, ScoreDoc};
use crate::util::bytes::bytes_are_ordered;
use crate::util::heap::{
    heap_root_is_least, is_heap, lesser_child, refines, sift_down, sift_up, swapped,
};
use crate::util::priority_queue::{drained, drained_is_sorted, operations_keep_items, popped};
use crate::util::text::{append_signed, decimal_int};

verus! {

/// The score of a hit that has none: the integer that stands for it in the order of
/// single-precision numbers.
pub const NO_SCORE: i32 = 0x7fc0_0000;

/// A hit in the queue.
#[derive(Debug, Clone, Copy)]
pub struct Entry {
    /// The document and its score.
    pub score_doc: ScoreDoc,
    /// The slot that holds its values.
    pub slot: i32,
}

impl Entry {
    /// Renders the hit. `hit_text` is the rendering of the document and its score.
    pub fn to_text(&self, hit_text: &str) -> (r: String)
        ensures
            r@ == "slot:"@ + decimal_int(self.slot as int) + " "@ + hit_text@,
    {
        let mut text = "slot:".to_owned();
        append_signed(&mut text, self.slot as i64);
        text.append(" ");
        text.append(hit_text);
        text
    }

    /// Creates a hit without a score.
    pub fn new(slot: i32, doc: i32) -> (r: Self)
        ensures
            r.slot == slot,
            r.score_doc == (ScoreDoc { doc, score: NO_SCORE, shard_index: -1i32 }),
    {
        Entry { score_doc: ScoreDoc { doc, score: NO_SCORE, shard_index: -1 }, slot }
    }

    /// Returns the document.
    pub fn doc(&self) -> (r: i32)
        ensures
            r == self.score_doc.doc,
    {
        self.score_doc.doc
    }
}

/// An order that is turned round when the field is sorted in reverse.
pub open spec fn directed(order: int, reverse: bool) -> int {
    if reverse {
        -order
    } else {
        order
    }
}

/// Whether the first hit is worse than the second one by the fields from `i` on: the
/// first field in which they differ decides, and of hits that do not differ the greater
/// document is worse.
pub open spec fn worse_from<C: FieldComparator>(
    comparators: Seq<C>,
    reverse: Seq<i32>,
    a: Entry,
    b: Entry,
    i: int,
) -> bool
    decreases comparators.len() - i,
{
    if i >= comparators.len() {
        a.score_doc.doc > b.score_doc.doc
    } else {
        let c = comparators[i];
        let order = directed(
            c.rank(c.slots().keys[a.slot as int], c.slots().keys[b.slot as int]),
            reverse[i] < 0,
        );
        if order != 0 {
            order > 0
        } else {
            worse_from(comparators, reverse, a, b, i + 1)
        }
    }
}

/// The first order from field `i` on that is not 0.
pub open spec fn first_order(orders: Seq<int>, i: int) -> int
    decreases orders.len() - i,
{
    if i >= orders.len() {
        0
    } else if orders[i] != 0 {
        orders[i]
    } else {
        first_order(orders, i + 1)
    }
}

/// Holds the best hits of a search, sorted by the values of fields.
pub struct FieldValueHitQueue<F: FieldComparatorSource> {
    fields: Vec<SortField<F>>,
    comparators: Vec<F::C>,
    reverse_mul: Vec<i32>,
    heap: Vec<Entry>,
    max_size: usize,
}

/// How the first of `n` comparators may leave out hits.
pub open spec fn pruning_of(i: int, n: int) -> Pruning {
    if i > 0 {
        Pruning::NONE
    } else if n > 1 {
        Pruning::GREATER_THAN
    } else {
        Pruning::GREATER_THAN_OR_EQUAL_TO
    }
}

impl<F: FieldComparatorSource> FieldValueHitQueue<F> {
    /// The fields.
    pub closed spec fn fields(&self) -> Seq<SortField<F>> {
        self.fields@
    }

    /// The comparators of the fields.
    pub closed spec fn comparators(&self) -> Seq<F::C> {
        self.comparators@
    }

    /// -1 for the fields that are sorted in reverse, 1 for the others.
    pub closed spec fn reverse_mul(&self) -> Seq<i32> {
        self.reverse_mul@
    }

    /// The hits in the order of the heap.
    pub closed spec fn heap(&self) -> Seq<Entry> {
        self.heap@
    }

    /// The greatest number of hits.
    pub closed spec fn capacity(&self) -> int {
        self.max_size as int
    }

    /// There are as many comparators as fields, and each has a slot for every hit.
    pub open spec fn wf(&self) -> bool {
        &&& self.comparators().len() > 0
        &&& self.reverse_mul().len() == self.comparators().len()
        &&& forall|i: int|
            0 <= i < self.reverse_mul().len() ==> #[trigger] self.reverse_mul()[i] == 1
                || self.reverse_mul()[i] == -1
        &&& forall|i: int|
            0 <= i < self.comparators().len() ==> (#[trigger] self.comparators()[i]).inv()
                && self.comparators()[i].slots().keys.len() == self.capacity()
        &&& self.slots_in_range(self.heap())
        &&& 2 * self.capacity() + 2 <= usize::MAX
        &&& self.heap().len() <= self.capacity() || self.heap().len() <= 1
    }

    /// The slots of the hits exist.
    pub open spec fn slots_in_range(&self, entries: Seq<Entry>) -> bool {
        forall|i: int|
            0 <= i < entries.len() ==> 0 <= (#[trigger] entries[i]).slot < self.capacity()
    }

    /// The order of the hits, the worse ones first.
    pub open spec fn order(&self) -> spec_fn(Entry, Entry) -> bool {
        |a: Entry, b: Entry| worse_from(self.comparators(), self.reverse_mul(), a, b, 0)
    }

    /// Nothing has changed but the hits and what the comparators hold.
    pub open spec fn same_sort(&self, other: Self) -> bool {
        &&& self.fields() == other.fields()
        &&& self.reverse_mul() == other.reverse_mul()
        &&& self.capacity() == other.capacity()
        &&& self.comparators().len() == other.comparators().len()
    }

    /// Creates an empty queue.
    ///
    /// # Errors
    ///
    /// [`LuceneError::IllegalArgument`] if there are no fields; whatever creating the
    /// comparators fails with.
    pub fn create(fields: Vec<SortField<F>>, size: usize) -> (r: Result<Self, LuceneError>)
        requires
            2 * size + 2 <= usize::MAX,
        ensures
            fields@.len() == 0 ==> (r matches Err(e) && e.is_illegal_argument(
                "Sort must contain at least one field"@,
            )),
            fields@.len() > 0 && (forall|i: int|
                0 <= i < fields@.len() ==> (#[trigger] fields@[i]).source.infallible()) ==> r is Ok,
            r matches Ok(q) ==> {
                let n = fields@.len() as int;
                &&& n > 0
                &&& q.wf()
                &&& q.fields() == fields@
                &&& q.capacity() == size
                &&& q.heap() == Seq::<Entry>::empty()
                &&& q.reverse_mul() == fields@.map_values(
                    |f: SortField<F>|
                        if f.reverse {
                            -1i32
                        } else {
                            1i32
                        },
                )
                &&& q.comparators().len() == n
                &&& forall|i: int|
                    0 <= i < n ==> fields@[i].source.creates(
                        fields@[i].field@,
                        size as int,
                        pruning_of(i, n),
                        fields@[i].reverse,
                        #[trigger] q.comparators()[i],
                    )
            },
    {
        let n: usize = fields.len();
        if n == 0 {
            return Err(
                LuceneError::IllegalArgument("Sort must contain at least one field".to_owned()),
            );
        }
        let mut comparators: Vec<F::C> = Vec::with_capacity(n);
        let mut reverse_mul: Vec<i32> = Vec::with_capacity(n);
        let mut i: usize = 0;
        while i < n
            invariant
                n == fields@.len(),
                i <= n,
                reverse_mul@ =~= fields@.map_values(
                    |f: SortField<F>|
                        if f.reverse {
                            -1i32
                        } else {
                            1i32
                        },
                ).take(i as int),
                comparators@.len() == i,
                forall|j: int|
                    0 <= j < i ==> fields@[j].source.creates(
                        fields@[j].field@,
                        size as int,
                        pruning_of(j, n as int),
                        fields@[j].reverse,
                        #[trigger] comparators@[j],
                    ),
                forall|j: int|
                    0 <= j < i ==> (#[trigger] comparators@[j]).inv()
                        && comparators@[j].slots().keys.len() == size,
            decreases n - i,
        {
            reverse_mul.push(
                if fields[i].reverse {
                    -1
                } else {
                    1
                },
            );
            let pruning = if i == 0 {
                if n > 1 {
                    Pruning::GREATER_THAN
                } else {
                    Pruning::GREATER_THAN_OR_EQUAL_TO
                }
            } else {
                Pruning::NONE
            };
            let comparator = fields[i].get_comparator(size, pruning)?;
            comparators.push(comparator);
            i += 1;
        }
        let heap: Vec<Entry> = Vec::new();
        let r = FieldValueHitQueue { fields, comparators, reverse_mul, heap, max_size: size };
        assert(r.heap() =~= Seq::<Entry>::empty());
        Ok(r)
    }

    /// Returns the fields.
    pub fn get_fields(&self) -> (r: &Vec<SortField<F>>)
        ensures
            r@ == self.fields(),
    {
        &self.fields
    }

    /// Returns -1 for the fields that are sorted in reverse, 1 for the others.
    pub fn get_reverse_mul(&self) -> (r: &Vec<i32>)
        ensures
            r@ == self.reverse_mul(),
    {
        &self.reverse_mul
    }

    /// Returns the comparators of the fields.
    pub fn get_comparators(&self) -> (r: &Vec<F::C>)
        ensures
            r@ == self.comparators(),
    {
        &self.comparators
    }

    /// Returns the comparators of the fields, so that they can be changed.
    pub fn get_comparators_mut(&mut self) -> (r: &mut [F::C])
        ensures
            r@ == old(self).comparators(),
            final(self).comparators() == final(r)@,
            final(self).fields() == old(self).fields(),
            final(self).reverse_mul() == old(self).reverse_mul(),
            final(self).capacity() == old(self).capacity(),
            final(self).heap() == old(self).heap(),
    {
        self.comparators.as_mut_slice()
    }

    /// Whether no comparator fails.
    pub open spec fn infallible(&self) -> bool {
        forall|i: int|
            0 <= i < self.comparators().len() ==> (#[trigger] self.comparators()[i]).infallible()
    }

    proof fn lemma_same_infallible(&self, other: Self)
        requires
            self.comparators().len() == other.comparators().len(),
            forall|j: int|
                0 <= j < self.comparators().len() ==> (#[trigger] self.comparators()[j]).infallible()
                    == other.comparators()[j].infallible(),
        ensures
            self.infallible() == other.infallible(),
    {
        if self.infallible() {
            assert forall|j: int| 0 <= j < other.comparators().len() implies (
            #[trigger] other.comparators()[j]).infallible() by {
                assert(self.comparators()[j].infallible());
            }
        }
    }

    /// Goes to a leaf.
    ///
    /// # Errors
    ///
    /// Whatever reading the leaf fails with.
    pub fn set_next_leaf(&mut self, context: &LeafReaderContext) -> (r: Result<(), LuceneError>)
        requires
            old(self).wf(),
        ensures
            old(self).infallible() ==> r is Ok && final(self).infallible(),
            final(self).wf(),
            final(self).same_sort(*old(self)),
            final(self).heap() == old(self).heap(),
            forall|i: int|
                0 <= i < final(self).comparators().len() ==> (
                #[trigger] final(self).comparators()[i]).slots() == old(
                    self,
                ).comparators()[i].slots(),
            r is Ok ==> forall|i: int|
                0 <= i < final(self).comparators().len() ==> old(self).comparators()[i].enters(
                    *context,
                    #[trigger] final(self).comparators()[i],
                ),
            r is Ok ==> forall|doc: int|
                0 <= doc < NO_MORE_DOCS ==> #[trigger] final(self).readable(doc),
    {
        let n: usize = self.comparators.len();
        let mut i: usize = 0;
        while i < n
            invariant
                n == self.comparators().len(),
                forall|j: int|
                    0 <= j < i ==> old(self).comparators()[j].enters(
                        *context,
                        #[trigger] self.comparators()[j],
                    ) && self.comparators()[j].readable_from() <= 0,
                forall|j: int|
                    i <= j < n ==> #[trigger] self.comparators()[j] == old(self).comparators()[j],
                i <= n,
                self.wf(),
                self.same_sort(*old(self)),
                self.heap() == old(self).heap(),
                old(self).infallible() ==> self.infallible(),
                forall|j: int|
                    0 <= j < n ==> (#[trigger] self.comparators()[j]).slots() == old(
                        self,
                    ).comparators()[j].slots(),
            decreases n - i,
        {
            let ghost before = self.comparators();
            let entered = self.comparators[i].get_leaf_comparator(context);
            proof {
                assert(self.comparators() =~= before.update(i as int, self.comparators()[i as int]));
                assert forall|j: int| 0 <= j < n implies (#[trigger] self.comparators()[j]).inv()
                    && self.comparators()[j].slots() == before[j].slots() by {
                    if j != i {
                        assert(self.comparators()[j] == before[j]);
                    }
                }
            }
            entered?;
            i += 1;
        }
        Ok(())
    }

    /// The orders of the worst hit and a document, field by field.
    pub open spec fn bottom_orders(&self, doc: i32, score: i32) -> Seq<int> {
        Seq::new(
            self.comparators().len(),
            |i: int|
                directed(
                    self.comparators()[i].rank(
                        self.comparators()[i].slots().bottom,
                        self.comparators()[i].key_of(doc, score),
                    ),
                    self.reverse_mul()[i] < 0,
                ),
        )
    }

    /// The orders of the hit after which hits are searched and a document, field by
    /// field.
    pub open spec fn top_orders(&self, doc: i32, score: i32) -> Seq<int> {
        Seq::new(
            self.comparators().len(),
            |i: int|
                directed(
                    self.comparators()[i].rank(
                        self.comparators()[i].slots().top,
                        self.comparators()[i].key_of(doc, score),
                    ),
                    self.reverse_mul()[i] < 0,
                ),
        )
    }

    /// Whether every comparator can read a document.
    pub open spec fn readable(&self, doc: int) -> bool {
        &&& doc < NO_MORE_DOCS
        &&& forall|i: int|
            0 <= i < self.comparators().len() ==> (#[trigger] self.comparators()[i]).readable_from()
                <= doc
    }

    /// Whether the comparators hold the same and read it in the same way.
    pub open spec fn same_slots(&self, other: Self) -> bool {
        forall|i: int|
            0 <= i < self.comparators().len() ==> (#[trigger] self.comparators()[i]).slots()
                == other.comparators()[i].slots() && self.comparators()[i].same_rules(
                other.comparators()[i],
            ) || self.comparators()[i] == other.comparators()[i]
    }

    /// Returns the order of the worst hit and a document: that by the first field in which
    /// they differ.
    ///
    /// # Errors
    ///
    /// Whatever reading the document fails with.
    pub fn compare_bottom<S: Scorable>(&mut self, doc: i32, scorer: &mut S) -> (r: Result<
        i32,
        LuceneError,
    >)
        requires
            old(self).wf(),
            old(self).readable(doc as int),
        ensures
            old(self).infallible() && old(scorer).infallible() ==> r is Ok,
            final(self).infallible() == old(self).infallible(),
            final(scorer).infallible() == old(scorer).infallible(),
            final(scorer).current() == old(scorer).current(),
            final(self).wf(),
            r is Ok ==> final(self).readable(doc as int),
            final(self).same_sort(*old(self)),
            final(self).heap() == old(self).heap(),
            final(self).same_slots(*old(self)),
            r matches Ok(c) ==> c == first_order(
                old(self).bottom_orders(doc, old(scorer).current()),
                0,
            ),
    {
        let ghost orders = self.bottom_orders(doc, scorer.current());
        let n: usize = self.comparators.len();
        let mut i: usize = 0;
        while i < n
            invariant
                self.infallible() == old(self).infallible(),
                n == self.comparators().len(),
                i <= n,
                self.wf(),
                self.readable(doc as int),
                self.same_sort(*old(self)),
                self.heap() == old(self).heap(),
                forall|j: int|
                    0 <= j < n ==> (#[trigger] self.comparators()[j]).infallible()
                        == old(self).comparators()[j].infallible(),
                self.same_slots(*old(self)),
                scorer.current() == old(scorer).current(),
                scorer.infallible() == old(scorer).infallible(),
                forall|j: int|
                    i <= j < n ==> #[trigger] self.comparators()[j] == old(self).comparators()[j],
                orders == old(self).bottom_orders(doc, old(scorer).current()),
                first_order(orders, 0) == first_order(orders, i as int),
            decreases n - i,
        {
            let ghost before = self.comparators();
            assert(before[i as int] == old(self).comparators()[i as int]);
            let compared = self.comparators[i].compare_bottom(doc, scorer);
            proof {
                assert(self.comparators() =~= before.update(i as int, self.comparators()[i as int]));
                assert forall|j: int| 0 <= j < n implies (
                #[trigger] self.comparators()[j]).infallible() == old(
                    self,
                ).comparators()[j].infallible() by {
                    assert(before[j].infallible() == old(self).comparators()[j].infallible());
                    if j != i {
                        assert(self.comparators()[j] == before[j]);
                    }
                }
                self.lemma_same_infallible(*old(self));
                self.lemma_kept(*old(self), before, i as int);
            }
            let c: i32 = compared?;
            let directed: i32 = if self.reverse_mul[i] < 0 {
                -c
            } else {
                c
            };
            assert(orders[i as int] == directed);
            if directed != 0 {
                return Ok(directed);
            }
            i += 1;
        }
        Ok(0)
    }

    /// Returns the order of the hit after which hits are searched and a document: that by
    /// the first field in which they differ.
    ///
    /// # Errors
    ///
    /// Whatever reading the document fails with.
    pub fn compare_top<S: Scorable>(&mut self, doc: i32, scorer: &mut S) -> (r: Result<
        i32,
        LuceneError,
    >)
        requires
            old(self).wf(),
            old(self).readable(doc as int),
        ensures
            old(self).infallible() && old(scorer).infallible() ==> r is Ok,
            final(self).infallible() == old(self).infallible(),
            final(scorer).infallible() == old(scorer).infallible(),
            final(scorer).current() == old(scorer).current(),
            final(self).wf(),
            r is Ok ==> final(self).readable(doc as int),
            final(self).same_sort(*old(self)),
            final(self).heap() == old(self).heap(),
            final(self).same_slots(*old(self)),
            r matches Ok(c) ==> c == first_order(
                old(self).top_orders(doc, old(scorer).current()),
                0,
            ),
    {
        let ghost orders = self.top_orders(doc, scorer.current());
        let n: usize = self.comparators.len();
        let mut i: usize = 0;
        while i < n
            invariant
                self.infallible() == old(self).infallible(),
                n == self.comparators().len(),
                i <= n,
                self.wf(),
                self.readable(doc as int),
                self.same_sort(*old(self)),
                self.heap() == old(self).heap(),
                forall|j: int|
                    0 <= j < n ==> (#[trigger] self.comparators()[j]).infallible()
                        == old(self).comparators()[j].infallible(),
                self.same_slots(*old(self)),
                scorer.current() == old(scorer).current(),
                scorer.infallible() == old(scorer).infallible(),
                forall|j: int|
                    i <= j < n ==> #[trigger] self.comparators()[j] == old(self).comparators()[j],
                orders == old(self).top_orders(doc, old(scorer).current()),
                first_order(orders, 0) == first_order(orders, i as int),
            decreases n - i,
        {
            let ghost before = self.comparators();
            assert(before[i as int] == old(self).comparators()[i as int]);
            let compared = self.comparators[i].compare_top(doc, scorer);
            proof {
                assert(self.comparators() =~= before.update(i as int, self.comparators()[i as int]));
                assert forall|j: int| 0 <= j < n implies (
                #[trigger] self.comparators()[j]).infallible() == old(
                    self,
                ).comparators()[j].infallible() by {
                    assert(before[j].infallible() == old(self).comparators()[j].infallible());
                    if j != i {
                        assert(self.comparators()[j] == before[j]);
                    }
                }
                self.lemma_same_infallible(*old(self));
                self.lemma_kept(*old(self), before, i as int);
            }
            let c: i32 = compared?;
            let directed: i32 = if self.reverse_mul[i] < 0 {
                -c
            } else {
                c
            };
            assert(orders[i as int] == directed);
            if directed != 0 {
                return Ok(directed);
            }
            i += 1;
        }
        Ok(0)
    }

    proof fn lemma_kept(&self, original: Self, before: Seq<F::C>, i: int)
        requires
            0 <= i < before.len(),
            self.comparators() == before.update(i, self.comparators()[i]),
            before[i] == original.comparators()[i],
            before.len() == original.comparators().len(),
            self.comparators()[i].inv(),
            self.comparators()[i].slots() == before[i].slots(),
            self.comparators()[i].same_rules(before[i]),
            forall|j: int|
                0 <= j < before.len() ==> (#[trigger] before[j]).slots()
                    == original.comparators()[j].slots() && before[j].same_rules(
                    original.comparators()[j],
                ) || before[j] == original.comparators()[j],
            forall|j: int| 0 <= j < before.len() ==> (#[trigger] before[j]).inv(),
        ensures
            self.same_slots(original),
            forall|j: int| 0 <= j < before.len() ==> (#[trigger] self.comparators()[j]).inv(),
            forall|j: int|
                0 <= j < before.len() ==> (#[trigger] self.comparators()[j]).slots()
                    == before[j].slots(),
    {
        assert forall|j: int| 0 <= j < before.len() implies (#[trigger] self.comparators()[j]).inv()
            && self.comparators()[j].slots() == before[j].slots() && (self.comparators()[j].slots()
            == original.comparators()[j].slots() && self.comparators()[j].same_rules(
            original.comparators()[j],
        ) || self.comparators()[j] == original.comparators()[j]) by {
            assert(before[j].inv());
            if j != i {
                assert(self.comparators()[j] == before[j]);
            }
        }
    }

    /// Puts the values of a document in a slot.
    ///
    /// # Errors
    ///
    /// Whatever reading the document fails with.
    pub fn copy<S: Scorable>(&mut self, slot: i32, doc: i32, scorer: &mut S) -> (r: Result<
        (),
        LuceneError,
    >)
        requires
            old(self).wf(),
            old(self).readable(doc as int),
            0 <= slot < old(self).capacity(),
        ensures
            old(self).infallible() && old(scorer).infallible() ==> r is Ok,
            final(self).infallible() == old(self).infallible(),
            final(scorer).infallible() == old(scorer).infallible(),
            final(scorer).current() == old(scorer).current(),
            final(self).wf(),
            r is Ok ==> final(self).readable(doc as int),
            final(self).same_sort(*old(self)),
            final(self).heap() == old(self).heap(),
            r is Ok ==> forall|i: int|
                0 <= i < final(self).comparators().len() ==> {
                    let now = #[trigger] final(self).comparators()[i];
                    let was = old(self).comparators()[i];
                    &&& now.same_rules(was)
                    &&& now.slots().bottom == was.slots().bottom
                    &&& now.slots().top == was.slots().top
                    &&& now.slots().keys == was.slots().keys.update(
                        slot as int,
                        was.key_of(doc, old(scorer).current()),
                    )
                },
    {
        let n: usize = self.comparators.len();
        let mut i: usize = 0;
        while i < n
            invariant
                self.infallible() == old(self).infallible(),
                n == self.comparators().len(),
                i <= n,
                0 <= slot < self.capacity(),
                self.wf(),
                self.readable(doc as int),
                self.same_sort(*old(self)),
                self.heap() == old(self).heap(),
                forall|j: int|
                    0 <= j < n ==> (#[trigger] self.comparators()[j]).infallible()
                        == old(self).comparators()[j].infallible(),
                scorer.current() == old(scorer).current(),
                scorer.infallible() == old(scorer).infallible(),
                forall|j: int|
                    i <= j < n ==> #[trigger] self.comparators()[j] == old(self).comparators()[j],
                forall|j: int|
                    0 <= j < i ==> {
                        let now = #[trigger] self.comparators()[j];
                        let was = old(self).comparators()[j];
                        &&& now.same_rules(was)
                        &&& now.slots().bottom == was.slots().bottom
                        &&& now.slots().top == was.slots().top
                        &&& now.slots().keys == was.slots().keys.update(
                            slot as int,
                            was.key_of(doc, old(scorer).current()),
                        )
                    },
            decreases n - i,
        {
            let ghost before = self.comparators();
            assert(before[i as int] == old(self).comparators()[i as int]);
            let copied = self.comparators[i].copy(slot, doc, scorer);
            proof {
                assert(self.comparators() =~= before.update(i as int, self.comparators()[i as int]));
                assert forall|j: int| 0 <= j < n implies (
                #[trigger] self.comparators()[j]).infallible() == old(
                    self,
                ).comparators()[j].infallible() by {
                    assert(before[j].infallible() == old(self).comparators()[j].infallible());
                    if j != i {
                        assert(self.comparators()[j] == before[j]);
                    }
                }
                self.lemma_same_infallible(*old(self));
                assert forall|j: int| 0 <= j < n implies (#[trigger] self.comparators()[j]).inv()
                    && self.comparators()[j].slots().keys.len() == self.capacity() by {
                    assert(before[j].inv());
                    if j != i {
                        assert(self.comparators()[j] == before[j]);
                    }
                }
            }
            copied?;
            i += 1;
        }
        Ok(())
    }

    /// Notes the hit in a slot as the worst one.
    ///
    /// # Errors
    ///
    /// Whatever the comparators fail with.
    pub fn set_bottom(&mut self, slot: i32) -> (r: Result<(), LuceneError>)
        requires
            old(self).wf(),
            0 <= slot < old(self).capacity(),
        ensures
            old(self).infallible() ==> r is Ok,
            final(self).infallible() == old(self).infallible(),
            final(self).wf(),
            final(self).same_sort(*old(self)),
            final(self).heap() == old(self).heap(),
            r is Ok ==> forall|i: int|
                0 <= i < final(self).comparators().len() ==> {
                    let now = #[trigger] final(self).comparators()[i];
                    let was = old(self).comparators()[i];
                    &&& now.same_rules(was)
                    &&& now.slots().keys == was.slots().keys
                    &&& now.slots().top == was.slots().top
                    &&& now.slots().bottom == was.slots().keys[slot as int]
                },
    {
        let n: usize = self.comparators.len();
        let mut i: usize = 0;
        while i < n
            invariant
                self.infallible() == old(self).infallible(),
                n == self.comparators().len(),
                i <= n,
                0 <= slot < self.capacity(),
                self.wf(),
                self.same_sort(*old(self)),
                self.heap() == old(self).heap(),
                forall|j: int|
                    0 <= j < n ==> (#[trigger] self.comparators()[j]).infallible()
                        == old(self).comparators()[j].infallible(),
                forall|j: int|
                    i <= j < n ==> #[trigger] self.comparators()[j] == old(self).comparators()[j],
                forall|j: int|
                    0 <= j < i ==> {
                        let now = #[trigger] self.comparators()[j];
                        let was = old(self).comparators()[j];
                        &&& now.same_rules(was)
                        &&& now.slots().keys == was.slots().keys
                        &&& now.slots().top == was.slots().top
                        &&& now.slots().bottom == was.slots().keys[slot as int]
                    },
            decreases n - i,
        {
            let ghost before = self.comparators();
            assert(before[i as int] == old(self).comparators()[i as int]);
            let set = self.comparators[i].set_bottom(slot);
            proof {
                assert(self.comparators() =~= before.update(i as int, self.comparators()[i as int]));
                assert forall|j: int| 0 <= j < n implies (
                #[trigger] self.comparators()[j]).infallible() == old(
                    self,
                ).comparators()[j].infallible() by {
                    assert(before[j].infallible() == old(self).comparators()[j].infallible());
                    if j != i {
                        assert(self.comparators()[j] == before[j]);
                    }
                }
                self.lemma_same_infallible(*old(self));
                assert forall|j: int| 0 <= j < n implies (#[trigger] self.comparators()[j]).inv()
                    && self.comparators()[j].slots().keys.len() == self.capacity() by {
                    assert(before[j].inv());
                    if j != i {
                        assert(self.comparators()[j] == before[j]);
                    }
                }
            }
            set?;
            i += 1;
        }
        Ok(())
    }

    /// Tells the comparators what scores the documents.
    ///
    /// # Errors
    ///
    /// Whatever the comparators fail with.
    pub fn set_scorer<S: Scorable>(&mut self, scorer: &mut S) -> (r: Result<(), LuceneError>)
        requires
            old(self).wf(),
        ensures
            old(self).infallible() && old(scorer).infallible() ==> r is Ok,
            final(self).infallible() == old(self).infallible(),
            final(scorer).infallible() == old(scorer).infallible(),
            final(scorer).current() == old(scorer).current(),
            final(self).wf(),
            final(self).same_sort(*old(self)),
            final(self).heap() == old(self).heap(),
            forall|i: int|
                0 <= i < final(self).comparators().len() ==> keeps_keys(
                    old(self).comparators()[i],
                    #[trigger] final(self).comparators()[i],
                ),
            r is Ok ==> forall|i: int|
                0 <= i < final(self).comparators().len() ==> old(
                    self,
                ).comparators()[i].takes_scorer(#[trigger] final(self).comparators()[i]),
    {
        let n: usize = self.comparators.len();
        let mut i: usize = 0;
        while i < n
            invariant
                n == self.comparators().len(),
                i <= n,
                self.wf(),
                self.same_sort(*old(self)),
                self.heap() == old(self).heap(),
                scorer.infallible() == old(scorer).infallible(),
                scorer.current() == old(scorer).current(),
                old(self).wf(),
                self.infallible() == old(self).infallible(),
                forall|j: int|
                    0 <= j < n ==> keeps_keys(
                        old(self).comparators()[j],
                        #[trigger] self.comparators()[j],
                    ),
                forall|j: int|
                    i <= j < n ==> #[trigger] self.comparators()[j] == old(self).comparators()[j],
                forall|j: int|
                    0 <= j < i ==> old(self).comparators()[j].takes_scorer(
                        #[trigger] self.comparators()[j],
                    ),
            decreases n - i,
        {
            let ghost before = *self;
            assert(before.comparators()[i as int] == old(self).comparators()[i as int]);
            let told = self.comparators[i].set_scorer(scorer);
            proof {
                self.lemma_one_keeps_keys(before, i as int);
                assert forall|j: int| 0 <= j < n implies keeps_keys(
                    old(self).comparators()[j],
                    #[trigger] self.comparators()[j],
                ) by {
                    if j != i {
                        assert(self.comparators()[j] == before.comparators()[j]);
                    }
                }
            }
            told?;
            i += 1;
        }
        Ok(())
    }

    /// Where one comparator keeps its keys, and nothing else changes, the queue is as it was.
    proof fn lemma_one_keeps_keys(&self, before: Self, i: int)
        requires
            before.wf(),
            0 <= i < before.comparators().len(),
            self.comparators() == before.comparators().update(i, self.comparators()[i]),
            keeps_keys(before.comparators()[i], self.comparators()[i]),
            self.fields() == before.fields(),
            self.reverse_mul() == before.reverse_mul(),
            self.capacity() == before.capacity(),
            self.heap() == before.heap(),
        ensures
            self.wf(),
            self.same_sort(before),
            self.infallible() == before.infallible(),
    {
        assert forall|j: int| 0 <= j < self.comparators().len() implies (
        #[trigger] self.comparators()[j]).inv() && self.comparators()[j].slots().keys.len()
            == self.capacity() && self.comparators()[j].infallible()
            == before.comparators()[j].infallible() by {
            assert(before.comparators()[j].inv());
            if j != i {
                assert(self.comparators()[j] == before.comparators()[j]);
            }
        }
        self.lemma_same_infallible(before);
    }

    /// Tells the comparator of the first field that enough hits were counted, so that
    /// documents that are not competitive may be left out.
    ///
    /// # Errors
    ///
    /// Whatever the comparator fails with.
    pub fn set_hits_threshold_reached(&mut self) -> (r: Result<(), LuceneError>)
        requires
            old(self).wf(),
        ensures
            old(self).infallible() ==> r is Ok,
            final(self).infallible() == old(self).infallible(),
            final(self).wf(),
            final(self).same_sort(*old(self)),
            final(self).heap() == old(self).heap(),
            final(self).comparators() == old(self).comparators().update(
                0,
                final(self).comparators()[0],
            ),
            keeps_keys(old(self).comparators()[0], final(self).comparators()[0]),
            r is Ok ==> old(self).comparators()[0].reaches_threshold(final(self).comparators()[0]),
    {
        assert(self.comparators()[0].inv());
        let told = self.comparators[0].set_hits_threshold_reached();
        proof {
            assert(self.comparators() =~= old(self).comparators().update(0, self.comparators()[0]));
            self.lemma_one_keeps_keys(*old(self), 0);
        }
        told
    }

    /// Returns an iterator over the documents of the leaf that may be competitive by the
    /// first field; `None` when nothing is known of that.
    ///
    /// # Errors
    ///
    /// Whatever the comparator fails with.
    pub fn competitive_iterator(&mut self) -> (r: Result<
        Option<Box<dyn DocIdSetIterator>>,
        LuceneError,
    >)
        requires
            old(self).wf(),
        ensures
            old(self).infallible() ==> r is Ok,
            final(self).infallible() == old(self).infallible(),
            final(self).wf(),
            final(self).same_sort(*old(self)),
            final(self).heap() == old(self).heap(),
            final(self).comparators() == old(self).comparators().update(
                0,
                final(self).comparators()[0],
            ),
            keeps_keys(old(self).comparators()[0], final(self).comparators()[0]),
            r matches Ok(it) ==> match it {
                Some(it) => it.inv() && old(self).comparators()[0].competitive_docs() == Some(
                    it.view().docs,
                ),
                None => old(self).comparators()[0].competitive_docs() is None,
            },
    {
        assert(self.comparators()[0].inv());
        let found = self.comparators[0].competitive_iterator();
        proof {
            assert(self.comparators() =~= old(self).comparators().update(0, self.comparators()[0]));
            self.lemma_one_keeps_keys(*old(self), 0);
        }
        found
    }

    /// Returns a hit with the values by which it is sorted.
    pub fn fill_fields(&self, entry: &Entry) -> (r: FieldDoc)
        requires
            self.wf(),
            0 <= entry.slot < self.capacity(),
        ensures
            r.score_doc == (ScoreDoc {
                doc: entry.score_doc.doc,
                score: entry.score_doc.score,
                shard_index: -1i32,
            }),
            r.fields matches Some(values) && values@.len() == self.comparators().len()
                && forall|i: int|
                0 <= i < values@.len() ==> self.comparators()[i].shows(
                    self.comparators()[i].slots().keys[entry.slot as int],
                    #[trigger] values@[i],
                ),
    {
        let n: usize = self.comparators.len();
        let mut values: Vec<SortValue> = Vec::with_capacity(n);
        let mut i: usize = 0;
        while i < n
            invariant
                n == self.comparators().len(),
                i <= n,
                self.wf(),
                0 <= entry.slot < self.capacity(),
                values@.len() == i,
                forall|j: int|
                    0 <= j < i ==> self.comparators()[j].shows(
                        self.comparators()[j].slots().keys[entry.slot as int],
                        #[trigger] values@[j],
                    ),
            decreases n - i,
        {
            assert(self.comparators()[i as int].inv());
            values.push(self.comparators[i].value(entry.slot));
            i += 1;
        }
        FieldDoc::with_fields(entry.score_doc.doc, entry.score_doc.score, values)
    }

    /// Returns whether the first hit is worse than the second one.
    fn less_than(&self, hit_a: &Entry, hit_b: &Entry) -> (r: bool)
        requires
            self.wf(),
            0 <= hit_a.slot < self.capacity(),
            0 <= hit_b.slot < self.capacity(),
        ensures
            r == self.order()(*hit_a, *hit_b),
    {
        let n: usize = self.comparators.len();
        let mut i: usize = 0;
        while i < n
            invariant
                n == self.comparators().len(),
                i <= n,
                self.wf(),
                0 <= hit_a.slot < self.capacity(),
                0 <= hit_b.slot < self.capacity(),
                worse_from(self.comparators(), self.reverse_mul(), *hit_a, *hit_b, 0)
                    == worse_from(
                    self.comparators(),
                    self.reverse_mul(),
                    *hit_a,
                    *hit_b,
                    i as int,
                ),
            decreases n - i,
        {
            assert(self.comparators()[i as int].inv());
            let c: i32 = self.comparators[i].compare(hit_a.slot, hit_b.slot);
            let directed: i32 = if self.reverse_mul[i] < 0 {
                -c
            } else {
                c
            };
            if directed != 0 {
                return directed > 0;
            }
            i += 1;
        }
        hit_a.score_doc.doc > hit_b.score_doc.doc
    }

    /// Adds a hit, and returns the worst one.
    pub fn add(&mut self, element: Entry) -> (r: Option<Entry>)
        requires
            old(self).wf(),
            old(self).heap().len() < old(self).capacity() || old(self).heap().len() == 0,
            0 <= element.slot < old(self).capacity(),
        ensures
            final(self).wf(),
            final(self).same_sort(*old(self)),
            final(self).comparators() == old(self).comparators(),
            final(self).heap() == sift_up(
                old(self).heap().push(element),
                old(self).order(),
                old(self).heap().len() as int,
            ),
            r == Some(final(self).heap()[0]),
    {
        let n: usize = self.heap.len();
        self.heap.push(element);
        assert(self.order() == old(self).order());
        assert(self.slots_in_range(self.heap())) by {
            assert forall|i: int| 0 <= i < self.heap().len() implies 0 <= (
            #[trigger] self.heap()[i]).slot < self.capacity() by {
                if i < n {
                    assert(self.heap()[i] == old(self).heap()[i]);
                }
            }
        }
        self.up_heap(n);
        Some(self.heap[0])
    }

    /// Returns the worst hit; `None` when there is none.
    pub fn top(&self) -> (r: Option<Entry>)
        ensures
            r == if self.heap().len() == 0 {
                None
            } else {
                Some(self.heap()[0])
            },
    {
        if self.heap.len() == 0 {
            None
        } else {
            Some(self.heap[0])
        }
    }

    /// Removes the worst hit, and returns it; `None` when there is none.
    pub fn pop(&mut self) -> (r: Option<Entry>)
        requires
            old(self).wf(),
        ensures
            final(self).wf(),
            final(self).same_sort(*old(self)),
            final(self).comparators() == old(self).comparators(),
            r == if old(self).heap().len() == 0 {
                None
            } else {
                Some(old(self).heap()[0])
            },
            final(self).heap() == popped(old(self).heap(), old(self).order()),
    {
        let n: usize = self.heap.len();
        if n == 0 {
            assert(self.heap() =~= popped(self.heap(), self.order()));
            return None;
        }
        let result: Entry = self.heap[0];
        let last: Entry = self.heap[n - 1];
        let _removed = self.heap.pop();
        assert(self.order() == old(self).order());
        if n > 1 {
            self.heap.set(0, last);
            assert(self.heap() =~= old(self).heap().drop_last().update(0, old(self).heap().last()));
            assert(self.slots_in_range(self.heap())) by {
                assert forall|i: int| 0 <= i < self.heap().len() implies 0 <= (
                #[trigger] self.heap()[i]).slot < self.capacity() by {
                    if i > 0 {
                        assert(self.heap()[i] == old(self).heap()[i]);
                    } else {
                        assert(self.heap()[i] == old(self).heap()[n - 1]);
                    }
                }
            }
            self.down_heap();
        } else {
            assert(self.heap() =~= Seq::empty());
        }
        Some(result)
    }

    /// Changes the document of the worst hit.
    pub fn set_top_doc(&mut self, doc: i32)
        requires
            old(self).wf(),
        ensures
            final(self).wf(),
            final(self).same_sort(*old(self)),
            final(self).comparators() == old(self).comparators(),
            final(self).heap() == if old(self).heap().len() == 0 {
                old(self).heap()
            } else {
                let top = old(self).heap()[0];
                old(self).heap().update(
                    0,
                    (Entry { score_doc: ScoreDoc { doc, ..top.score_doc }, ..top }),
                )
            },
    {
        if self.heap.len() > 0 {
            let top: Entry = self.heap[0];
            let changed = Entry {
                score_doc: ScoreDoc {
                    doc,
                    score: top.score_doc.score,
                    shard_index: top.score_doc.shard_index,
                },
                slot: top.slot,
            };
            self.heap.set(0, changed);
            assert(self.slots_in_range(self.heap())) by {
                assert forall|i: int| 0 <= i < self.heap().len() implies 0 <= (
                #[trigger] self.heap()[i]).slot < self.capacity() by {
                    assert(0 <= old(self).heap()[i].slot < self.capacity());
                }
            }
        }
    }

    /// Moves the worst hit to its place after it was changed, and returns the worst one.
    pub fn update_top(&mut self) -> (r: Option<Entry>)
        requires
            old(self).wf(),
        ensures
            final(self).wf(),
            final(self).same_sort(*old(self)),
            final(self).comparators() == old(self).comparators(),
            final(self).heap() == if old(self).heap().len() == 0 {
                old(self).heap()
            } else {
                sift_down(old(self).heap(), old(self).order(), 0)
            },
            r == if old(self).heap().len() == 0 {
                None
            } else {
                Some(final(self).heap()[0])
            },
    {
        if self.heap.len() > 0 {
            self.down_heap();
        }
        self.top()
    }

    /// Returns the number of hits.
    pub fn size(&self) -> (r: usize)
        ensures
            r == self.heap().len(),
    {
        self.heap.len()
    }

    /// Returns the greatest number of hits.
    pub fn max_size(&self) -> (r: usize)
        ensures
            r == self.capacity(),
    {
        self.max_size
    }

    /// Removes all hits.
    pub fn clear(&mut self)
        requires
            old(self).wf(),
        ensures
            final(self).wf(),
            final(self).same_sort(*old(self)),
            final(self).comparators() == old(self).comparators(),
            final(self).heap() == Seq::<Entry>::empty(),
    {
        self.heap.clear();
    }

    /// Moves the hit at `start` towards the root while it is worse than the one above it.
    fn up_heap(&mut self, start: usize)
        requires
            old(self).wf(),
            start < old(self).heap().len(),
        ensures
            final(self).wf(),
            final(self).same_sort(*old(self)),
            final(self).comparators() == old(self).comparators(),
            final(self).heap() == sift_up(old(self).heap(), old(self).order(), start as int),
            final(self).heap().len() == old(self).heap().len(),
    {
        let ghost lt = self.order();
        let ghost goal = sift_up(self.heap(), lt, start as int);
        let mut i: usize = start;
        while i > 0
            invariant
                lt == old(self).order(),
                lt == self.order(),
                self.wf(),
                self.same_sort(*old(self)),
                self.comparators() == old(self).comparators(),
                self.heap().len() == old(self).heap().len(),
                i < self.heap().len(),
                goal == sift_up(self.heap(), lt, i as int),
                goal == sift_up(old(self).heap(), lt, start as int),
            decreases i,
        {
            let j: usize = (i - 1) / 2;
            let a: Entry = self.heap[i];
            let b: Entry = self.heap[j];
            assert(0 <= self.heap()[i as int].slot < self.capacity());
            assert(0 <= self.heap()[j as int].slot < self.capacity());
            if !self.less_than(&a, &b) {
                return;
            }
            self.swap_entries(i, j);
            i = j;
        }
    }

    /// Exchanges two hits.
    fn swap_entries(&mut self, i: usize, j: usize)
        requires
            old(self).wf(),
            i < old(self).heap().len(),
            j < old(self).heap().len(),
        ensures
            final(self).wf(),
            final(self).same_sort(*old(self)),
            final(self).comparators() == old(self).comparators(),
            final(self).order() == old(self).order(),
            final(self).heap() == swapped(old(self).heap(), i as int, j as int),
    {
        let a: Entry = self.heap[i];
        let b: Entry = self.heap[j];
        self.heap.set(i, b);
        self.heap.set(j, a);
        proof {
            assert(self.heap() =~= swapped(old(self).heap(), i as int, j as int));
            assert(self.order() == old(self).order());
            assert forall|k: int| 0 <= k < self.heap().len() implies 0 <= (
            #[trigger] self.heap()[k]).slot < self.capacity() by {
                assert(0 <= old(self).heap()[k].slot < self.capacity());
                assert(0 <= old(self).heap()[i as int].slot < self.capacity());
                assert(0 <= old(self).heap()[j as int].slot < self.capacity());
            }
        }
    }

    /// Moves the hit at the root towards the leaves while one below it is worse.
    fn down_heap(&mut self)
        requires
            old(self).wf(),
            old(self).heap().len() > 0,
        ensures
            final(self).wf(),
            final(self).same_sort(*old(self)),
            final(self).comparators() == old(self).comparators(),
            final(self).heap() == sift_down(old(self).heap(), old(self).order(), 0),
            final(self).heap().len() == old(self).heap().len(),
    {
        let ghost lt = self.order();
        let ghost goal = sift_down(self.heap(), lt, 0);
        let n: usize = self.heap.len();
        let mut i: usize = 0;
        while 2 * i + 1 < n
            invariant
                n == self.heap().len(),
                n == old(self).heap().len(),
                lt == old(self).order(),
                lt == self.order(),
                self.wf(),
                self.same_sort(*old(self)),
                self.comparators() == old(self).comparators(),
                i < n,
                goal == sift_down(self.heap(), lt, i as int),
                goal == sift_down(old(self).heap(), lt, 0),
            decreases n - i,
        {
            let mut child: usize = 2 * i + 1;
            if child + 1 < n {
                let right: Entry = self.heap[child + 1];
                let left: Entry = self.heap[child];
                assert(0 <= self.heap()[child + 1].slot < self.capacity());
                assert(0 <= self.heap()[child as int].slot < self.capacity());
                if self.less_than(&right, &left) {
                    child = child + 1;
                }
            }
            assert(child == lesser_child(self.heap(), lt, i as int));
            let a: Entry = self.heap[child];
            let b: Entry = self.heap[i];
            assert(0 <= self.heap()[child as int].slot < self.capacity());
            assert(0 <= self.heap()[i as int].slot < self.capacity());
            if !self.less_than(&a, &b) {
                return;
            }
            self.swap_entries(i, child);
            i = child;
        }
    }
}

/// Whether the order of the keys is total: exchanging two keys turns it round, and it is
/// transitive.
pub open spec fn ranks_keys<C: FieldComparator>(c: C) -> bool {
    &&& forall|a: C::K, b: C::K| (#[trigger] c.rank(a, b) < 0) == (c.rank(b, a) > 0)
    &&& forall|a: C::K, b: C::K, d: C::K| #[trigger]
        c.rank(a, b) <= 0 && #[trigger] c.rank(b, d) <= 0 ==> c.rank(a, d) <= 0
}

/// The order of two hits by one field.
spec fn order_by<C: FieldComparator>(c: C, reverse: i32, a: Entry, b: Entry) -> int {
    directed(
        c.rank(c.slots().keys[a.slot as int], c.slots().keys[b.slot as int]),
        reverse < 0,
    )
}

proof fn lemma_order_by<C: FieldComparator>(c: C, reverse: i32, x: Entry, y: Entry, z: Entry)
    requires
        ranks_keys(c),
    ensures
        (order_by(c, reverse, x, y) < 0) == (order_by(c, reverse, y, x) > 0),
        (order_by(c, reverse, y, x) < 0) == (order_by(c, reverse, x, y) > 0),
        order_by(c, reverse, x, y) <= 0 && order_by(c, reverse, y, z) <= 0 ==> order_by(
            c,
            reverse,
            x,
            z,
        ) <= 0,
{
    let kx = c.slots().keys[x.slot as int];
    let ky = c.slots().keys[y.slot as int];
    let kz = c.slots().keys[z.slot as int];
    let (xy, yx) = (c.rank(kx, ky), c.rank(ky, kx));
    let (yz, zy) = (c.rank(ky, kz), c.rank(kz, ky));
    let (xz, zx) = (c.rank(kx, kz), c.rank(kz, kx));
    assert((xy < 0) == (yx > 0));
    assert((yx < 0) == (xy > 0));
    assert((yz < 0) == (zy > 0));
    assert((zy < 0) == (yz > 0));
    assert((xz < 0) == (zx > 0));
    assert((zx < 0) == (xz > 0));
}

proof fn lemma_worse<C: FieldComparator>(
    comparators: Seq<C>,
    reverse: Seq<i32>,
    a: Entry,
    b: Entry,
    c: Entry,
    i: int,
)
    requires
        0 <= i,
        forall|k: int| 0 <= k < comparators.len() ==> ranks_keys(#[trigger] comparators[k]),
    ensures
        worse_from(comparators, reverse, a, b, i) ==> !worse_from(comparators, reverse, b, a, i),
        !worse_from(comparators, reverse, b, a, i) && !worse_from(comparators, reverse, c, b, i)
            ==> !worse_from(comparators, reverse, c, a, i),
    decreases comparators.len() - i,
{
    if i < comparators.len() {
        let f = comparators[i];
        lemma_worse(comparators, reverse, a, b, c, i + 1);
        lemma_order_by(f, reverse[i], a, b, c);
        lemma_order_by(f, reverse[i], b, c, a);
        lemma_order_by(f, reverse[i], c, a, b);
        lemma_order_by(f, reverse[i], c, b, a);
        lemma_order_by(f, reverse[i], b, a, c);
        lemma_order_by(f, reverse[i], a, c, b);
        reveal_with_fuel(worse_from, 2);
        assert(worse_from(comparators, reverse, a, b, i) == if order_by(f, reverse[i], a, b) != 0 {
            order_by(f, reverse[i], a, b) > 0
        } else {
            worse_from(comparators, reverse, a, b, i + 1)
        });
        assert(worse_from(comparators, reverse, b, a, i) == if order_by(f, reverse[i], b, a) != 0 {
            order_by(f, reverse[i], b, a) > 0
        } else {
            worse_from(comparators, reverse, b, a, i + 1)
        });
        assert(worse_from(comparators, reverse, c, b, i) == if order_by(f, reverse[i], c, b) != 0 {
            order_by(f, reverse[i], c, b) > 0
        } else {
            worse_from(comparators, reverse, c, b, i + 1)
        });
        assert(worse_from(comparators, reverse, c, a, i) == if order_by(f, reverse[i], c, a) != 0 {
            order_by(f, reverse[i], c, a) > 0
        } else {
            worse_from(comparators, reverse, c, a, i + 1)
        });
    }
}

impl<F: FieldComparatorSource> FieldValueHitQueue<F> {
    /// Whether the first hit is not better than the second one.
    pub open spec fn not_better(&self) -> spec_fn(Entry, Entry) -> bool {
        |a: Entry, b: Entry| !worse_from(self.comparators(), self.reverse_mul(), b, a, 0)
    }

    /// Whether every comparator orders its keys totally.
    pub open spec fn ranked(&self) -> bool {
        forall|k: int|
            0 <= k < self.comparators().len() ==> ranks_keys(#[trigger] self.comparators()[k])
    }

    /// Hits are ordered by their values and documents, when the comparators order their
    /// keys: of two hits one is not better than the other, and what is not better than a
    /// hit is not better than any hit that this one is not better than.
    pub proof fn hits_are_ordered(&self)
        requires
            self.ranked(),
        ensures
            refines(self.order(), self.not_better()),
            forall|a: Entry| #[trigger] self.not_better()(a, a),
    {
        let lt = self.order();
        let le = self.not_better();
        assert forall|a: Entry, b: Entry| #[trigger] lt(a, b) implies le(a, b) by {
            lemma_worse(self.comparators(), self.reverse_mul(), a, b, a, 0);
        }
        assert forall|a: Entry, b: Entry, c: Entry| #[trigger]
            le(a, b) && #[trigger] le(b, c) implies le(a, c) by {
            lemma_worse(self.comparators(), self.reverse_mul(), a, b, c, 0);
        }
        assert forall|a: Entry| #[trigger] le(a, a) by {
            lemma_worse(self.comparators(), self.reverse_mul(), a, a, a, 0);
        }
    }

    /// The worst hit is on top, and it leaves first: adding a hit, replacing the worst one
    /// and removing it keep the other hits, and removing all hits gives each of them once,
    /// the worst one first.
    pub proof fn worst_hits_leave_first(&self, hit: Entry)
        requires
            self.ranked(),
            is_heap(self.heap(), self.not_better()),
        ensures
            ({
                let (heap, lt, le) = (self.heap(), self.order(), self.not_better());
                let added = sift_up(heap.push(hit), lt, heap.len() as int);
                let all = drained(heap, lt, heap.len());
                &&& forall|i: int| 0 <= i < heap.len() ==> le(heap[0], #[trigger] heap[i])
                &&& is_heap(added, le)
                &&& added.to_multiset() == heap.to_multiset().insert(hit)
                &&& heap.len() > 0 ==> {
                    let updated = sift_down(heap.update(0, hit), lt, 0);
                    &&& is_heap(updated, le)
                    &&& updated.to_multiset() == heap.to_multiset().remove(heap[0]).insert(hit)
                    &&& is_heap(popped(heap, lt), le)
                    &&& popped(heap, lt).to_multiset() == heap.to_multiset().remove(heap[0])
                }
                &&& all.len() == heap.len()
                &&& all.to_multiset() == heap.to_multiset()
                &&& forall|i: int, j: int|
                    0 <= i <= j < all.len() ==> le(#[trigger] all[i], #[trigger] all[j])
            }),
    {
        let (heap, lt, le) = (self.heap(), self.order(), self.not_better());
        self.hits_are_ordered();
        operations_keep_items(heap, lt, le, hit);
        drained_is_sorted(heap, lt, le);
        assert forall|i: int| 0 <= i < heap.len() implies le(heap[0], #[trigger] heap[i]) by {
            heap_root_is_least(heap, le, i);
        }
    }
}

/// The order by relevance is total.
pub proof fn relevance_ranks_keys(c: RelevanceComparator)
    ensures
        ranks_keys(c),
{
}

/// The order by byte strings, where documents without one come first or last, is total.
pub proof fn terms_rank_keys<R: BinaryDocValuesSource>(c: TermValComparator<R>)
    requires
        c.inv(),
    ensures
        ranks_keys(c),
{
    assert forall|a: Option<Seq<u8>>, b: Option<Seq<u8>>| (#[trigger] c.rank(a, b) < 0) == (c.rank(
        b,
        a,
    ) > 0) by {
        if a is Some && b is Some {
            bytes_are_ordered(a->0, b->0, a->0);
        }
    }
    assert forall|a: Option<Seq<u8>>, b: Option<Seq<u8>>, d: Option<Seq<u8>>| #[trigger]
        c.rank(a, b) <= 0 && #[trigger] c.rank(b, d) <= 0 implies c.rank(a, d) <= 0 by {
        if a is Some && b is Some && d is Some {
            bytes_are_ordered(a->0, b->0, d->0);
        }
    }
}

/// Fields in which two hits do not differ do not decide which of them is worse.
proof fn lemma_worse_skips<C: FieldComparator>(
    comparators: Seq<C>,
    reverse: Seq<i32>,
    a: Entry,
    b: Entry,
    i: int,
    k: int,
)
    requires
        0 <= i <= k <= comparators.len(),
        forall|j: int|
            0 <= j < k ==> (#[trigger] comparators[j]).rank(
                comparators[j].slots().keys[a.slot as int],
                comparators[j].slots().keys[b.slot as int],
            ) == 0,
    ensures
        worse_from(comparators, reverse, a, b, i) == worse_from(comparators, reverse, a, b, k),
    decreases k - i,
{
    if i < k {
        assert(comparators[i].rank(
            comparators[i].slots().keys[a.slot as int],
            comparators[i].slots().keys[b.slot as int],
        ) == 0);
        lemma_worse_skips(comparators, reverse, a, b, i + 1, k);
    }
}

proof fn lemma_first_order_skips(orders: Seq<int>, i: int, k: int)
    requires
        0 <= i <= k <= orders.len(),
        forall|j: int| i <= j < k ==> #[trigger] orders[j] == 0,
    ensures
        first_order(orders, i) == first_order(orders, k),
    decreases k - i,
{
    if i < k {
        assert(orders[i] == 0);
        lemma_first_order_skips(orders, i + 1, k);
    }
}

impl<F: FieldComparatorSource> FieldValueHitQueue<F> {
    /// The first field in which two hits differ decides which of them is worse, whatever their
    /// documents: the greater one, or the lesser one where the field is sorted in reverse. Of hits
    /// that differ in no field, the one with the greater document is worse.
    pub proof fn first_difference_decides(&self, a: Entry, b: Entry, k: int)
        requires
            0 <= k <= self.comparators().len(),
            forall|j: int|
                0 <= j < k ==> (#[trigger] self.comparators()[j]).rank(
                    self.comparators()[j].slots().keys[a.slot as int],
                    self.comparators()[j].slots().keys[b.slot as int],
                ) == 0,
        ensures
            k < self.comparators().len() ==> {
                let c = self.comparators()[k];
                let rank = c.rank(c.slots().keys[a.slot as int], c.slots().keys[b.slot as int]);
                rank != 0 ==> self.order()(a, b) == if self.reverse_mul()[k] < 0 {
                    rank < 0
                } else {
                    rank > 0
                }
            },
            k == self.comparators().len() ==> self.order()(a, b) == (a.score_doc.doc
                > b.score_doc.doc),
            self.not_better()(b, a) == !self.order()(a, b),
    {
        lemma_worse_skips(self.comparators(), self.reverse_mul(), a, b, 0, k);
    }

    /// A document is compared with the worst hit by the first field in which they differ: a
    /// positive order says that the worst hit is greater in it, or less where the field is sorted
    /// in reverse. The order is 0 when they differ in no field.
    pub proof fn first_difference_from_bottom_decides(&self, doc: i32, score: i32, k: int)
        requires
            0 <= k <= self.comparators().len(),
            forall|j: int|
                0 <= j < k ==> (#[trigger] self.comparators()[j]).rank(
                    self.comparators()[j].slots().bottom,
                    self.comparators()[j].key_of(doc, score),
                ) == 0,
        ensures
            k < self.comparators().len() ==> {
                let c = self.comparators()[k];
                let rank = c.rank(c.slots().bottom, c.key_of(doc, score));
                rank != 0 ==> first_order(self.bottom_orders(doc, score), 0)
                    == if self.reverse_mul()[k] < 0 {
                    -rank
                } else {
                    rank
                }
            },
            k == self.comparators().len() ==> first_order(self.bottom_orders(doc, score), 0) == 0,
    {
        let orders = self.bottom_orders(doc, score);
        assert forall|j: int| 0 <= j < k implies #[trigger] orders[j] == 0 by {
            assert(self.comparators()[j].rank(
                self.comparators()[j].slots().bottom,
                self.comparators()[j].key_of(doc, score),
            ) == 0);
        }
        lemma_first_order_skips(orders, 0, k);
    }

    /// A document is compared with the hit after which hits are searched by the first field in
    /// which they differ: a positive order says that this hit is greater in it, or less where the
    /// field is sorted in reverse. The order is 0 when they differ in no field.
    pub proof fn first_difference_from_top_decides(&self, doc: i32, score: i32, k: int)
        requires
            0 <= k <= self.comparators().len(),
            forall|j: int|
                0 <= j < k ==> (#[trigger] self.comparators()[j]).rank(
                    self.comparators()[j].slots().top,
                    self.comparators()[j].key_of(doc, score),
                ) == 0,
        ensures
            k < self.comparators().len() ==> {
                let c = self.comparators()[k];
                let rank = c.rank(c.slots().top, c.key_of(doc, score));
                rank != 0 ==> first_order(self.top_orders(doc, score), 0)
                    == if self.reverse_mul()[k] < 0 {
                    -rank
                } else {
                    rank
                }
            },
            k == self.comparators().len() ==> first_order(self.top_orders(doc, score), 0) == 0,
    {
        let orders = self.top_orders(doc, score);
        assert forall|j: int| 0 <= j < k implies #[trigger] orders[j] == 0 by {
            assert(self.comparators()[j].rank(
                self.comparators()[j].slots().top,
                self.comparators()[j].key_of(doc, score),
            ) == 0);
        }
        lemma_first_order_skips(orders, 0, k);
    }
}

} // verus!
