//! Comparing hits by the numbers of a source.

use std::sync::Arc;

use vstd::prelude::*;

use crate::error::LuceneError;
use crate::search::doc_id_set_iterator::{DocIdSetIterator, NO_MORE_DOCS};
use crate::search::double_values::{
    with_missing, ConstantDoubleValues, DoubleNumber, DoubleValues, ZERO,
};
use crate::search::double_values_source::{DoubleValuesSource, NumericReader, SourceWeight};
use crate::search::field_comparator::{
    java_long_compare, order_of_ints, FieldComparator, Scorable, Slots, SortValue,
};
use crate::search::field_comparator_source::{FieldComparatorSource, Pruning, SortField};
use crate::search::field_value_hit_queue::ranks_keys;
use crate::search::index_searcher::{LeafReaderContext, SearchableQuery};
use crate::search::query::QueryNode;
use crate::search::source_values::{NumericDocValues, SourceValues};
use crate::search::vectors::FloatVectorValues;

verus! {

/// Knows which integers are ordered like numbers.
pub trait DoubleKeys {
    /// The integer that is ordered like a number.
    spec fn key(&self, number: DoubleNumber) -> i64;

    /// Returns the integer that is ordered like a number.
    fn key_of(&self, number: DoubleNumber) -> (r: i64)
        ensures
            r == self.key(number),
            number matches DoubleNumber::Double(k) ==> r == k,
    ;
}

/// Knows what reads the leaves of an index.
pub trait LeafReaders<R> {
    /// What reads a leaf.
    spec fn reader_of(&self, ctx: LeafReaderContext) -> R;

    /// Returns what reads a leaf.
    fn leaf_reader(&self, ctx: &LeafReaderContext) -> (r: R)
        ensures
            r == self.reader_of(*ctx),
    ;
}

/// Whether the numbers of every leaf can be read, and reading them never fails.
pub open spec fn always_opens<
    Q: QueryNode + SearchableQuery,
    R: NumericReader,
    L: LeafReaders<R>,
>(source: DoubleValuesSource<Q>, readers: L) -> bool where
    R::I: NumericDocValues,
    Q::W: SourceWeight,
 {
    forall|ctx: LeafReaderContext| #[trigger]
        source.opens_always(readers.reader_of(ctx), ctx)
}

/// Compares hits by the numbers of a source. Documents without a number have the given
/// one.
pub struct DoubleValuesComparator<
    Q: QueryNode + SearchableQuery,
    R: NumericReader,
    L: LeafReaders<R>,
    K: DoubleKeys,
> where R::I: NumericDocValues, Q::W: SourceWeight {
    producer: Arc<DoubleValuesSource<Q>>,
    missing_value: DoubleNumber,
    values: Vec<i64>,
    bottom: i64,
    top_value: i64,
    leaf: Option<SourceValues<
            ConstantDoubleValues,
            R::I,
            <Q::W as SourceWeight>::S,
            <R::V as FloatVectorValues>::S,
        >>,
    readers: Arc<L>,
    keys: Arc<K>,
}

impl<
    Q: QueryNode + SearchableQuery,
    R: NumericReader,
    L: LeafReaders<R>,
    K: DoubleKeys,
> DoubleValuesComparator<Q, R, L, K> where R::I: NumericDocValues, Q::W: SourceWeight {
    /// The source.
    pub closed spec fn producer(&self) -> DoubleValuesSource<Q> {
        *self.producer
    }

    /// The number of documents that have none.
    pub closed spec fn missing(&self) -> DoubleNumber {
        self.missing_value
    }

    /// What reads the leaves.
    pub closed spec fn readers(&self) -> L {
        *self.readers
    }

    /// Which integers are ordered like numbers.
    pub closed spec fn keys(&self) -> K {
        *self.keys
    }

    /// The numbers of the current leaf; `None` before the first leaf.
    pub closed spec fn leaf(&self) -> Option<
        SourceValues<
            ConstantDoubleValues,
            R::I,
            <Q::W as SourceWeight>::S,
            <R::V as FloatVectorValues>::S,
        >,
    > {
        self.leaf
    }

    /// The number of a document with the given score.
    pub open spec fn number(&self, doc: int, score: i32) -> DoubleNumber {
        match self.leaf() {
            None => self.missing(),
            Some(SourceValues::Scores(_)) => DoubleNumber::Score(score),
            Some(values) => with_missing(values.numbers(), self.missing())[doc],
        }
    }

    /// Creates a comparator with slots for the given number of hits.
    fn new(
        producer: Arc<DoubleValuesSource<Q>>,
        missing_value: DoubleNumber,
        num_hits: usize,
        readers: Arc<L>,
        keys: Arc<K>,
    ) -> (r: Self)
        ensures
            r.inv(),
            r.producer() == *producer,
            r.missing() == missing_value,
            r.readers() == *readers,
            r.keys() == *keys,
            r.leaf() is None,
            r.slots().keys == Seq::new(num_hits as nat, |i: int| ZERO),
            r.slots().bottom == ZERO,
            r.slots().top == ZERO,
    {
        let mut values: Vec<i64> = Vec::with_capacity(num_hits);
        let mut i: usize = 0;
        while i < num_hits
            invariant
                i <= num_hits,
                values@ =~= Seq::new(i as nat, |j: int| ZERO),
            decreases num_hits - i,
        {
            values.push(ZERO);
            i += 1;
        }
        DoubleValuesComparator {
            producer,
            missing_value,
            values,
            bottom: ZERO,
            top_value: ZERO,
            leaf: None,
            readers,
            keys,
        }
    }

    /// Returns the key of the number of a document.
    fn get_value_for_doc<S: Scorable>(&mut self, doc: i32, scorer: &mut S) -> (r: Result<
        i64,
        LuceneError,
    >)
        requires
            old(self).inv(),
            old(self).readable_from() <= doc < NO_MORE_DOCS,
        ensures
            old(self).infallible() && old(scorer).infallible() ==> r is Ok,
            final(self).infallible() == old(self).infallible(),
            final(scorer).infallible() == old(scorer).infallible(),
            final(scorer).current() == old(scorer).current(),
            final(self).inv(),
            r is Ok ==> final(self).readable_from() <= doc,
            final(self).same_rules(*old(self)),
            final(self).slots() == old(self).slots(),
            r matches Ok(key) ==> key == old(self).key_of(doc, old(scorer).current()),
    {
        let mut score: i32 = 0;
        if self.producer.needs_scores() {
            score = scorer.score()?;
        }
        match self.leaf.take() {
            None => Ok(self.keys.key_of(self.missing_value)),
            Some(taken) => {
                let mut values = taken;
                if let SourceValues::Scores(_) = values {
                    values = SourceValues::Scores(
                        ConstantDoubleValues::new(DoubleNumber::Score(score)),
                    );
                }
                let found = values.advance_exact(doc);
                let number = match found {
                    Err(e) => Err(e),
                    Ok(false) => Ok(self.missing_value),
                    Ok(true) => values.double_value(),
                };
                self.leaf = Some(values);
                match number {
                    Err(e) => Err(e),
                    Ok(n) => Ok(self.keys.key_of(n)),
                }
            },
        }
    }
}

impl<
    Q: QueryNode + SearchableQuery,
    R: NumericReader,
    L: LeafReaders<R>,
    K: DoubleKeys,
> FieldComparator for DoubleValuesComparator<Q, R, L, K> where
    R::I: NumericDocValues,
    Q::W: SourceWeight,
 {
    type K = i64;

    closed spec fn slots(&self) -> Slots<i64> {
        Slots { keys: self.values@, bottom: self.bottom, top: self.top_value }
    }

    open spec fn rank(&self, a: i64, b: i64) -> int {
        order_of_ints(a as int, b as int)
    }

    open spec fn key_of(&self, doc: i32, score: i32) -> i64 {
        self.keys().key(self.number(doc as int, score))
    }

    open spec fn shows(&self, key: i64, v: SortValue) -> bool {
        v == SortValue::Double(key)
    }

    open spec fn top_of(&self, value: SortValue) -> i64 {
        match value {
            SortValue::Double(v) => v,
            _ => self.slots().top,
        }
    }

    closed spec fn inv(&self) -> bool {
        self.leaf matches Some(values) ==> values.inv() && (values is Scores
            <==> *self.producer is Scores)
    }

    closed spec fn infallible(&self) -> bool {
        &&& self.leaf matches Some(values) ==> values.infallible()
        &&& always_opens(*self.producer, *self.readers)
    }

    closed spec fn readable_from(&self) -> int {
        match self.leaf {
            Some(values) => values.reachable_from(),
            None => i32::MIN as int,
        }
    }

    open spec fn same_rules(&self, other: Self) -> bool {
        &&& self.producer() == other.producer()
        &&& self.missing() == other.missing()
        &&& self.readers() == other.readers()
        &&& self.keys() == other.keys()
        &&& forall|doc: i32, score: i32| #[trigger]
            self.key_of(doc, score) == other.key_of(doc, score)
    }

    open spec fn enters(&self, context: LeafReaderContext, after: Self) -> bool {
        &&& after.producer() == self.producer()
        &&& after.missing() == self.missing()
        &&& after.readers() == self.readers()
        &&& after.keys() == self.keys()
        &&& after.leaf() is Some
        &&& self.producer() is Scores ==> after.leaf()->0 is Scores
        &&& !(self.producer() is Scores) ==> self.producer().opens(
            self.readers().reader_of(context),
            context,
            None,
            Ok(after.leaf()->0),
        )
    }

    open spec fn takes_scorer(&self, after: Self) -> bool {
        after == *self
    }

    open spec fn reaches_threshold(&self, after: Self) -> bool {
        after == *self
    }

    open spec fn competitive_docs(&self) -> Option<Set<int>> {
        None
    }

    fn compare(&self, slot1: i32, slot2: i32) -> (r: i32) {
        java_long_compare(self.values[slot1 as usize], self.values[slot2 as usize])
    }

    fn set_top_value(&mut self, value: SortValue) {
        if let SortValue::Double(v) = value {
            self.top_value = v;
        }
    }

    fn value(&self, slot: i32) -> (r: SortValue) {
        SortValue::Double(self.values[slot as usize])
    }

    fn get_leaf_comparator(&mut self, context: &LeafReaderContext) -> (r: Result<(), LuceneError>) {
        let reader = self.readers.leaf_reader(context);
        let scores = ConstantDoubleValues::new(DoubleNumber::Double(ZERO));
        proof {
            let source = self.producer();
            if source is Field {
                reader.integers_are_ready(source->field@);
            }
            assert(self.infallible() ==> self.producer.opens_always(
                self.readers.reader_of(*context),
                *context,
            ));
        }
        let values = self.producer.get_values(&reader, context, Some(scores))?;
        self.leaf = Some(values);
        Ok(())
    }

    fn set_bottom(&mut self, slot: i32) -> (r: Result<(), LuceneError>) {
        self.bottom = self.values[slot as usize];
        Ok(())
    }

    fn compare_bottom<S: Scorable>(&mut self, doc: i32, scorer: &mut S) -> (r: Result<
        i32,
        LuceneError,
    >) {
        let value: i64 = self.get_value_for_doc(doc, scorer)?;
        Ok(java_long_compare(self.bottom, value))
    }

    fn compare_top<S: Scorable>(&mut self, doc: i32, scorer: &mut S) -> (r: Result<
        i32,
        LuceneError,
    >) {
        let value: i64 = self.get_value_for_doc(doc, scorer)?;
        Ok(java_long_compare(self.top_value, value))
    }

    fn copy<S: Scorable>(&mut self, slot: i32, doc: i32, scorer: &mut S) -> (r: Result<
        (),
        LuceneError,
    >) {
        let value: i64 = self.get_value_for_doc(doc, scorer)?;
        let ghost read = *self;
        self.values.set(slot as usize, value);
        assert forall|d: i32, score: i32| #[trigger]
            self.key_of(d, score) == old(self).key_of(d, score) by {
            assert(read.key_of(d, score) == old(self).key_of(d, score));
        }
        Ok(())
    }

    fn set_scorer<S: Scorable>(&mut self, scorer: &mut S) -> (r: Result<(), LuceneError>) {
        Ok(())
    }

    fn set_hits_threshold_reached(&mut self) -> (r: Result<(), LuceneError>) {
        Ok(())
    }

    fn competitive_iterator(&mut self) -> (r: Result<
        Option<Box<dyn DocIdSetIterator>>,
        LuceneError,
    >) {
        Ok(None)
    }
}

/// Creates comparators for the numbers of a source.
pub struct DoubleValuesComparatorSource<Q: SearchableQuery, R, L, K> {
    producer: Arc<DoubleValuesSource<Q>>,
    missing_value: DoubleNumber,
    readers: Arc<L>,
    keys: Arc<K>,
    reader: core::marker::PhantomData<R>,
}

impl<Q: SearchableQuery, R, L, K> DoubleValuesComparatorSource<Q, R, L, K> {
    /// The source.
    pub closed spec fn producer(&self) -> DoubleValuesSource<Q> {
        *self.producer
    }

    /// The number of documents that have none.
    pub closed spec fn missing(&self) -> DoubleNumber {
        self.missing_value
    }

    /// What reads the leaves.
    pub closed spec fn readers(&self) -> L {
        *self.readers
    }

    /// Which integers are ordered like numbers.
    pub closed spec fn keys(&self) -> K {
        *self.keys
    }

    /// Creates what creates comparators for the numbers of `producer`.
    pub fn new(
        producer: Arc<DoubleValuesSource<Q>>,
        missing_value: DoubleNumber,
        readers: Arc<L>,
        keys: Arc<K>,
    ) -> (r: Self)
        ensures
            r.producer() == *producer,
            r.missing() == missing_value,
            r.readers() == *readers,
            r.keys() == *keys,
    {
        DoubleValuesComparatorSource {
            producer,
            missing_value,
            readers,
            keys,
            reader: core::marker::PhantomData,
        }
    }
}

impl<
    Q: QueryNode + SearchableQuery,
    R: NumericReader,
    L: LeafReaders<R>,
    K: DoubleKeys,
> FieldComparatorSource for DoubleValuesComparatorSource<Q, R, L, K> where
    R::I: NumericDocValues,
    Q::W: SourceWeight,
 {
    type C = DoubleValuesComparator<Q, R, L, K>;

    open spec fn creates(
        &self,
        fieldname: Seq<char>,
        num_hits: int,
        pruning: Pruning,
        reversed: bool,
        comparator: DoubleValuesComparator<Q, R, L, K>,
    ) -> bool {
        &&& comparator.producer() == self.producer()
        &&& comparator.missing() == self.missing()
        &&& comparator.readers() == self.readers()
        &&& comparator.keys() == self.keys()
        &&& comparator.leaf() is None
        &&& comparator.slots().keys == Seq::new(num_hits as nat, |i: int| ZERO)
        &&& comparator.slots().bottom == ZERO
        &&& comparator.slots().top == ZERO
    }

    open spec fn infallible(&self) -> bool {
        true
    }

    fn new_comparator(
        &self,
        fieldname: &str,
        num_hits: usize,
        pruning: Pruning,
        reversed: bool,
    ) -> (r: Result<DoubleValuesComparator<Q, R, L, K>, LuceneError>) {
        Ok(
            DoubleValuesComparator::new(
                self.producer.clone(),
                self.missing_value,
                num_hits,
                self.readers.clone(),
                self.keys.clone(),
            ),
        )
    }
}

/// Sorts by the numbers of a source; documents without a number have the number zero.
pub fn get_sort_field<Q: QueryNode + SearchableQuery, R, L, K>(
    source: Arc<DoubleValuesSource<Q>>,
    reverse: bool,
    readers: Arc<L>,
    keys: Arc<K>,
) -> (r: SortField<DoubleValuesComparatorSource<Q, R, L, K>>) where Q::W: SourceWeight
    ensures
        r.field@ == source.rendered(),
        r.reverse == reverse,
        r.source.producer() == *source,
        r.source.missing() == DoubleNumber::Double(ZERO),
        r.source.readers() == *readers,
        r.source.keys() == *keys,
{
    get_sort_field_with_missing(source, reverse, DoubleNumber::Double(ZERO), readers, keys)
}

/// Sorts by the numbers of a source; documents without a number have the given one.
pub fn get_sort_field_with_missing<Q: QueryNode + SearchableQuery, R, L, K>(
    source: Arc<DoubleValuesSource<Q>>,
    reverse: bool,
    missing_value: DoubleNumber,
    readers: Arc<L>,
    keys: Arc<K>,
) -> (r: SortField<DoubleValuesComparatorSource<Q, R, L, K>>) where Q::W: SourceWeight
    ensures
        r.field@ == source.rendered(),
        r.reverse == reverse,
        r.source.producer() == *source,
        r.source.missing() == missing_value,
        r.source.readers() == *readers,
        r.source.keys() == *keys,
{
    let field = source.to_source_string();
    SortField {
        field,
        reverse,
        source: DoubleValuesComparatorSource::new(source, missing_value, readers, keys),
    }
}

/// The order by numbers is total.
pub proof fn numbers_rank_keys<
    Q: QueryNode + SearchableQuery,
    R: NumericReader,
    L: LeafReaders<R>,
    K: DoubleKeys,
>(c: DoubleValuesComparator<Q, R, L, K>) where R::I: NumericDocValues, Q::W: SourceWeight
    ensures
        ranks_keys(c),
{
}

} // verus!
