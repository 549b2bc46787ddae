//! Comparing hits by scores or by the values of fields.

use vstd::prelude::*;
use vstd::string::*;

use crate::error::LuceneError;
use crate::search::doc_id_set_iterator::{DocIdSetIterator, NO_MORE_DOCS};
use crate::search::index_searcher::LeafReaderContext;
use crate::util::bytes::{bytes_are_ordered, compare_bytes, copy_of, order_of_bytes};
use crate::util::number_keys::{double_key, double_key_of, single_key, single_key_of};

verus! {

/// The order of two integers: -1, 0 or 1.
pub open spec fn order_of_ints(a: int, b: int) -> int {
    if a < b {
        -1
    } else if a > b {
        1
    } else {
        0
    }
}

/// Returns the order of two integers.
pub fn java_int_compare(a: i32, b: i32) -> (r: i32)
    ensures
        r == order_of_ints(a as int, b as int),
{
    if a < b {
        -1
    } else if a > b {
        1
    } else {
        0
    }
}

/// Returns the order of two integers.
pub fn java_long_compare(a: i64, b: i64) -> (r: i32)
    ensures
        r == order_of_ints(a as int, b as int),
{
    if a < b {
        -1
    } else if a > b {
        1
    } else {
        0
    }
}

/// Returns the order of two single-precision numbers, which are given by their bits.
pub fn java_float_compare(a: u32, b: u32) -> (r: i32)
    ensures
        r == order_of_ints(single_key_of(a), single_key_of(b)),
{
    java_int_compare(single_key(a), single_key(b))
}

/// Returns the order of two double-precision numbers, which are given by their bits.
pub fn java_double_compare(a: u64, b: u64) -> (r: i32)
    ensures
        r == order_of_ints(double_key_of(a), double_key_of(b)),
{
    java_long_compare(double_key(a), double_key(b))
}

/// A value by which hits are sorted. Floating-point numbers are integers that are ordered
/// like them.
#[derive(Debug)]
pub enum SortValue {
    /// No value.
    Null,
    /// A 32-bit integer.
    Int(i32),
    /// A 64-bit integer.
    Long(i64),
    /// A single-precision number.
    Float(i32),
    /// A double-precision number.
    Double(i64),
    /// A byte string.
    Bytes(Vec<u8>),
}

impl SortValue {
    /// The place of the kind of value among the kinds.
    pub open spec fn kind(self) -> int {
        match self {
            SortValue::Null => 0,
            SortValue::Int(_) => 1,
            SortValue::Long(_) => 2,
            SortValue::Float(_) => 3,
            SortValue::Double(_) => 4,
            SortValue::Bytes(_) => 5,
        }
    }

    /// The order of two values; no value comes first, and values of different kinds are
    /// ordered by their kinds.
    pub open spec fn order(self, other: SortValue) -> int {
        match (self, other) {
            (SortValue::Int(a), SortValue::Int(b)) => order_of_ints(a as int, b as int),
            (SortValue::Long(a), SortValue::Long(b)) => order_of_ints(a as int, b as int),
            (SortValue::Float(a), SortValue::Float(b)) => order_of_ints(a as int, b as int),
            (SortValue::Double(a), SortValue::Double(b)) => order_of_ints(a as int, b as int),
            (SortValue::Bytes(a), SortValue::Bytes(b)) => order_of_bytes(a@, b@),
            _ => order_of_ints(self.kind(), other.kind()),
        }
    }

    /// Returns the place of the kind of value among the kinds.
    fn rank(&self) -> (r: i32)
        ensures
            r == self.kind(),
    {
        match self {
            SortValue::Null => 0,
            SortValue::Int(_) => 1,
            SortValue::Long(_) => 2,
            SortValue::Float(_) => 3,
            SortValue::Double(_) => 4,
            SortValue::Bytes(_) => 5,
        }
    }

    /// Returns the order of two values.
    pub fn compare_to(&self, other: &SortValue) -> (r: i32)
        ensures
            r == self.order(*other),
    {
        match (self, other) {
            (SortValue::Int(a), SortValue::Int(b)) => java_int_compare(*a, *b),
            (SortValue::Long(a), SortValue::Long(b)) => java_long_compare(*a, *b),
            (SortValue::Float(a), SortValue::Float(b)) => java_int_compare(*a, *b),
            (SortValue::Double(a), SortValue::Double(b)) => java_long_compare(*a, *b),
            (SortValue::Bytes(a), SortValue::Bytes(b)) => compare_bytes(a.as_slice(), b.as_slice()),
            _ => java_int_compare(self.rank(), other.rank()),
        }
    }

    /// Returns the single-precision number; `None` for any other kind of value.
    pub fn as_float(&self) -> (r: Option<i32>)
        ensures
            r == match *self {
                SortValue::Float(value) => Some(value),
                _ => None,
            },
    {
        match self {
            SortValue::Float(value) => Some(*value),
            _ => None,
        }
    }

    /// Returns the byte string; `None` for any other kind of value.
    pub fn as_bytes(&self) -> (r: Option<&Vec<u8>>)
        ensures
            match *self {
                SortValue::Bytes(value) => r == Some(&value),
                _ => r is None,
            },
    {
        match self {
            SortValue::Bytes(value) => Some(value),
            _ => None,
        }
    }

    /// Whether two values are the same.
    pub open spec fn same(self, other: SortValue) -> bool {
        match (self, other) {
            (SortValue::Bytes(a), SortValue::Bytes(b)) => a@ == b@,
            _ => self == other,
        }
    }

    /// Returns whether two values are the same.
    pub fn equals(&self, other: &SortValue) -> (r: bool)
        ensures
            r == self.same(*other),
    {
        match (self, other) {
            (SortValue::Null, SortValue::Null) => true,
            (SortValue::Int(a), SortValue::Int(b)) => *a == *b,
            (SortValue::Long(a), SortValue::Long(b)) => *a == *b,
            (SortValue::Float(a), SortValue::Float(b)) => *a == *b,
            (SortValue::Double(a), SortValue::Double(b)) => *a == *b,
            (SortValue::Bytes(a), SortValue::Bytes(b)) => {
                proof {
                    bytes_are_ordered(a@, b@, a@);
                }
                compare_bytes(a.as_slice(), b.as_slice()) == 0
            },
            _ => false,
        }
    }
}

/// Values are totally ordered: exchanging two of them turns the order round, only equal
/// ones have no order, and the order is transitive.
pub proof fn values_are_ordered(a: SortValue, b: SortValue, c: SortValue)
    ensures
        a.order(b) == -b.order(a),
        a.order(b) == 0 <==> a.same(b),
        a.order(b) <= 0 && b.order(c) <= 0 ==> a.order(c) <= 0,
{
    if let (SortValue::Bytes(x), SortValue::Bytes(y)) = (a, b) {
        bytes_are_ordered(x@, y@, x@);
        if let SortValue::Bytes(z) = c {
            bytes_are_ordered(x@, y@, z@);
        }
    }
}

/// Knows the score of the current document, an integer that is ordered like it.
pub trait Scorable {
    /// The score.
    spec fn current(&self) -> i32;

    /// Whether computing the score never fails.
    spec fn infallible(&self) -> bool;

    /// Returns the score.
    ///
    /// # Errors
    ///
    /// Whatever computing the score fails with.
    fn score(&mut self) -> (r: Result<i32, LuceneError>)
        ensures
            old(self).infallible() ==> r is Ok,
            final(self).infallible() == old(self).infallible(),
            final(self).current() == old(self).current(),
            r matches Ok(score) ==> score == old(self).current(),
    ;
}

/// What a comparator holds.
#[verifier::reject_recursive_types(K)]
pub struct Slots<K> {
    /// The keys of the hits.
    pub keys: Seq<K>,
    /// The key of the worst hit.
    pub bottom: K,
    /// The key after which hits are searched.
    pub top: K,
}

/// Whether a comparator has the same keys, and reads and orders them in the same way.
pub open spec fn keeps_keys<C: FieldComparator>(before: C, after: C) -> bool {
    after == before || {
        &&& after.inv()
        &&& after.infallible() == before.infallible()
        &&& after.readable_from() <= before.readable_from()
        &&& after.same_rules(before)
        &&& after.slots() == before.slots()
    }
}

/// Compares hits by keys, which it holds in slots.
pub trait FieldComparator: Sized {
    /// The keys.
    type K;

    /// What the comparator holds.
    spec fn slots(&self) -> Slots<Self::K>;

    /// The order of two keys.
    spec fn rank(&self, a: Self::K, b: Self::K) -> int;

    /// The key of a document with the given score.
    spec fn key_of(&self, doc: i32, score: i32) -> Self::K;

    /// Whether `v` shows the key.
    spec fn shows(&self, key: Self::K, v: SortValue) -> bool;

    /// The key after which hits are searched once the value was given.
    spec fn top_of(&self, value: SortValue) -> Self::K;

    /// The internal invariant of the implementation.
    spec fn inv(&self) -> bool;

    /// Whether reading keys never fails.
    spec fn infallible(&self) -> bool;

    /// The first document of the leaf whose key can still be read.
    spec fn readable_from(&self) -> int;

    /// Whether the keys are read and ordered in the same way.
    spec fn same_rules(&self, other: Self) -> bool;

    /// Whether `after` is the comparator once it has gone to a leaf, whose keys it reads.
    spec fn enters(&self, context: LeafReaderContext, after: Self) -> bool;

    /// Whether `after` is the comparator once it is told what scores the documents.
    spec fn takes_scorer(&self, after: Self) -> bool;

    /// Whether `after` is the comparator once it is told that enough hits were counted.
    spec fn reaches_threshold(&self, after: Self) -> bool;

    /// The documents of the leaf that may be competitive; `None` when nothing is known of
    /// that.
    spec fn competitive_docs(&self) -> Option<Set<int>>;

    /// Returns the order of the hits in two slots.
    fn compare(&self, slot1: i32, slot2: i32) -> (r: i32)
        requires
            self.inv(),
            0 <= slot1 < self.slots().keys.len(),
            0 <= slot2 < self.slots().keys.len(),
        ensures
            r == self.rank(self.slots().keys[slot1 as int], self.slots().keys[slot2 as int]),
            r > i32::MIN,
    ;

    /// Searches for hits after the given value.
    fn set_top_value(&mut self, value: SortValue)
        requires
            old(self).inv(),
        ensures
            final(self).inv(),
            final(self).infallible() == old(self).infallible(),
            final(self).readable_from() <= old(self).readable_from(),
            final(self).same_rules(*old(self)),
            final(self).slots().keys == old(self).slots().keys,
            final(self).slots().bottom == old(self).slots().bottom,
            final(self).slots().top == old(self).top_of(value),
    ;

    /// Returns the value of the hit in a slot.
    fn value(&self, slot: i32) -> (r: SortValue)
        requires
            self.inv(),
            0 <= slot < self.slots().keys.len(),
        ensures
            self.shows(self.slots().keys[slot as int], r),
    ;

    /// Goes to a leaf.
    ///
    /// # Errors
    ///
    /// Whatever reading the leaf fails with.
    fn get_leaf_comparator(&mut self, context: &LeafReaderContext) -> (r: Result<(), LuceneError>)
        requires
            old(self).inv(),
        ensures
            old(self).infallible() ==> r is Ok && final(self).infallible(),
            final(self).inv(),
            r is Ok ==> final(self).readable_from() <= 0,
            r is Ok ==> old(self).enters(*context, *final(self)),
            forall|a: Self::K, b: Self::K| #[trigger]
                final(self).rank(a, b) == old(self).rank(a, b),
            final(self).slots() == old(self).slots(),
    ;

    /// Notes the hit in a slot as the worst one.
    ///
    /// # Errors
    ///
    /// Whatever the comparator fails with.
    fn set_bottom(&mut self, slot: i32) -> (r: Result<(), LuceneError>)
        requires
            old(self).inv(),
            0 <= slot < old(self).slots().keys.len(),
        ensures
            old(self).infallible() ==> r is Ok,
            final(self).infallible() == old(self).infallible(),
            final(self).inv(),
            final(self).readable_from() <= old(self).readable_from(),
            final(self).same_rules(*old(self)),
            final(self).slots().keys == old(self).slots().keys,
            final(self).slots().top == old(self).slots().top,
            r is Ok ==> final(self).slots().bottom == old(self).slots().keys[slot as int],
    ;

    /// Returns the order of the worst hit and a document.
    ///
    /// # Errors
    ///
    /// Whatever reading the document fails with.
    fn compare_bottom<S: Scorable>(&mut self, doc: i32, scorer: &mut S) -> (r: Result<
        i32,
        LuceneError,
    >)
        requires
            old(self).inv(),
            old(self).readable_from() <= doc < NO_MORE_DOCS,
        ensures
            old(self).infallible() && old(scorer).infallible() ==> r is Ok,
            final(self).infallible() == old(self).infallible(),
            final(scorer).infallible() == old(scorer).infallible(),
            final(scorer).current() == old(scorer).current(),
            final(self).inv(),
            r is Ok ==> final(self).readable_from() <= doc,
            final(self).same_rules(*old(self)),
            final(self).slots() == old(self).slots(),
            r matches Ok(c) ==> c == old(self).rank(
                old(self).slots().bottom,
                old(self).key_of(doc, old(scorer).current()),
            ) && c > i32::MIN,
    ;

    /// Returns the order of the hit after which hits are searched and a document.
    ///
    /// # Errors
    ///
    /// Whatever reading the document fails with.
    fn compare_top<S: Scorable>(&mut self, doc: i32, scorer: &mut S) -> (r: Result<
        i32,
        LuceneError,
    >)
        requires
            old(self).inv(),
            old(self).readable_from() <= doc < NO_MORE_DOCS,
        ensures
            old(self).infallible() && old(scorer).infallible() ==> r is Ok,
            final(self).infallible() == old(self).infallible(),
            final(scorer).infallible() == old(scorer).infallible(),
            final(scorer).current() == old(scorer).current(),
            final(self).inv(),
            r is Ok ==> final(self).readable_from() <= doc,
            final(self).same_rules(*old(self)),
            final(self).slots() == old(self).slots(),
            r matches Ok(c) ==> c == old(self).rank(
                old(self).slots().top,
                old(self).key_of(doc, old(scorer).current()),
            ) && c > i32::MIN,
    ;

    /// Puts the key of a document in a slot.
    ///
    /// # Errors
    ///
    /// Whatever reading the document fails with.
    fn copy<S: Scorable>(&mut self, slot: i32, doc: i32, scorer: &mut S) -> (r: Result<
        (),
        LuceneError,
    >)
        requires
            old(self).inv(),
            old(self).readable_from() <= doc < NO_MORE_DOCS,
            0 <= slot < old(self).slots().keys.len(),
        ensures
            old(self).infallible() && old(scorer).infallible() ==> r is Ok,
            final(self).infallible() == old(self).infallible(),
            final(scorer).infallible() == old(scorer).infallible(),
            final(scorer).current() == old(scorer).current(),
            final(self).inv(),
            r is Ok ==> final(self).readable_from() <= doc,
            final(self).same_rules(*old(self)),
            final(self).slots().bottom == old(self).slots().bottom,
            final(self).slots().top == old(self).slots().top,
            final(self).slots().keys.len() == old(self).slots().keys.len(),
            r is Ok ==> final(self).slots().keys == old(self).slots().keys.update(
                slot as int,
                old(self).key_of(doc, old(scorer).current()),
            ),
    ;

    /// Tells the comparator what scores the documents.
    ///
    /// # Errors
    ///
    /// Whatever the comparator fails with.
    fn set_scorer<S: Scorable>(&mut self, scorer: &mut S) -> (r: Result<(), LuceneError>)
        requires
            old(self).inv(),
        ensures
            old(self).infallible() && old(scorer).infallible() ==> r is Ok,
            final(scorer).infallible() == old(scorer).infallible(),
            final(scorer).current() == old(scorer).current(),
            *final(self) == *old(self) || {
                &&& final(self).inv()
                &&& final(self).infallible() == old(self).infallible()
                &&& final(self).readable_from() <= old(self).readable_from()
                &&& final(self).same_rules(*old(self))
                &&& final(self).slots() == old(self).slots()
            },
            r is Ok ==> old(self).takes_scorer(*final(self)),
    ;

    /// Tells the comparator that enough hits were counted, so that documents that are not
    /// competitive may be left out.
    ///
    /// # Errors
    ///
    /// Whatever the comparator fails with.
    fn set_hits_threshold_reached(&mut self) -> (r: Result<(), LuceneError>)
        requires
            old(self).inv(),
        ensures
            old(self).infallible() ==> r is Ok,
            *final(self) == *old(self) || {
                &&& final(self).inv()
                &&& final(self).infallible() == old(self).infallible()
                &&& final(self).readable_from() <= old(self).readable_from()
                &&& final(self).same_rules(*old(self))
                &&& final(self).slots() == old(self).slots()
            },
            r is Ok ==> old(self).reaches_threshold(*final(self)),
    ;

    /// Returns an iterator over the documents of the leaf that may be competitive; `None`
    /// when nothing is known of that.
    ///
    /// # Errors
    ///
    /// Whatever the comparator fails with.
    fn competitive_iterator(&mut self) -> (r: Result<
        Option<Box<dyn DocIdSetIterator>>,
        LuceneError,
    >)
        requires
            old(self).inv(),
        ensures
            old(self).infallible() ==> r is Ok,
            *final(self) == *old(self) || {
                &&& final(self).inv()
                &&& final(self).infallible() == old(self).infallible()
                &&& final(self).readable_from() <= old(self).readable_from()
                &&& final(self).same_rules(*old(self))
                &&& final(self).slots() == old(self).slots()
            },
            r matches Ok(it) ==> match it {
                Some(it) => it.inv() && old(self).competitive_docs() == Some(it.view().docs),
                None => old(self).competitive_docs() is None,
            },
    ;

    /// Tells the comparator that hits are sorted by it alone.
    fn set_single_sort(&mut self)
        requires
            old(self).inv(),
        ensures
            *final(self) == *old(self) || {
                &&& final(self).inv()
                &&& final(self).infallible() == old(self).infallible()
                &&& final(self).readable_from() <= old(self).readable_from()
                &&& final(self).same_rules(*old(self))
                &&& final(self).slots() == old(self).slots()
            },
        default_ensures
            *final(self) == *old(self),
    {
    }

    /// Tells the comparator not to leave out documents.
    fn disable_skipping(&mut self)
        requires
            old(self).inv(),
        ensures
            *final(self) == *old(self) || {
                &&& final(self).inv()
                &&& final(self).infallible() == old(self).infallible()
                &&& final(self).readable_from() <= old(self).readable_from()
                &&& final(self).same_rules(*old(self))
                &&& final(self).slots() == old(self).slots()
            },
        default_ensures
            *final(self) == *old(self),
    {
    }

    /// Returns the order of two values.
    fn compare_values(&self, first: &SortValue, second: &SortValue) -> (r: i32)
        requires
            self.inv(),
        default_ensures
            r == first.order(*second),
    {
        first.compare_to(second)
    }
}

/// Compares hits by their scores, greater scores first.
#[derive(Debug)]
pub struct RelevanceComparator {
    scores: Vec<i32>,
    bottom: i32,
    top_value: i32,
}

impl RelevanceComparator {
    /// Creates a comparator with slots for the given number of hits.
    pub fn new(num_hits: usize) -> (r: Self)
        ensures
            r.inv(),
            r.slots().keys == Seq::new(num_hits as nat, |i: int| 0i32),
            r.slots().bottom == 0,
            r.slots().top == 0,
    {
        let mut scores: Vec<i32> = Vec::with_capacity(num_hits);
        let mut i: usize = 0;
        while i < num_hits
            invariant
                i <= num_hits,
                scores@ =~= Seq::new(i as nat, |j: int| 0i32),
            decreases num_hits - i,
        {
            scores.push(0);
            i += 1;
        }
        RelevanceComparator { scores, bottom: 0, top_value: 0 }
    }
}

impl FieldComparator for RelevanceComparator {
    type K = i32;

    closed spec fn slots(&self) -> Slots<i32> {
        Slots { keys: self.scores@, bottom: self.bottom, top: self.top_value }
    }

    open spec fn rank(&self, a: i32, b: i32) -> int {
        order_of_ints(b as int, a as int)
    }

    open spec fn key_of(&self, doc: i32, score: i32) -> i32 {
        score
    }

    open spec fn shows(&self, key: i32, v: SortValue) -> bool {
        v == SortValue::Float(key)
    }

    open spec fn top_of(&self, value: SortValue) -> i32 {
        match value {
            SortValue::Float(v) => v,
            _ => 0,
        }
    }

    open spec fn inv(&self) -> bool {
        true
    }

    open spec fn infallible(&self) -> bool {
        true
    }

    open spec fn readable_from(&self) -> int {
        i32::MIN as int
    }

    open spec fn same_rules(&self, other: Self) -> bool {
        true
    }

    open spec fn enters(&self, context: LeafReaderContext, after: Self) -> bool {
        after == *self
    }

    open spec fn takes_scorer(&self, after: Self) -> bool {
        after == *self
    }

    open spec fn reaches_threshold(&self, after: Self) -> bool {
        after == *self
    }

    open spec fn competitive_docs(&self) -> Option<Set<int>> {
        None
    }

    fn compare(&self, slot1: i32, slot2: i32) -> (r: i32) {
        java_int_compare(self.scores[slot2 as usize], self.scores[slot1 as usize])
    }

    fn set_top_value(&mut self, value: SortValue) {
        self.top_value = match value.as_float() {
            Some(v) => v,
            None => 0,
        };
    }

    fn value(&self, slot: i32) -> (r: SortValue) {
        SortValue::Float(self.scores[slot as usize])
    }

    fn get_leaf_comparator(&mut self, context: &LeafReaderContext) -> (r: Result<(), LuceneError>) {
        Ok(())
    }

    fn set_bottom(&mut self, slot: i32) -> (r: Result<(), LuceneError>) {
        self.bottom = self.scores[slot as usize];
        Ok(())
    }

    fn compare_bottom<S: Scorable>(&mut self, doc: i32, scorer: &mut S) -> (r: Result<
        i32,
        LuceneError,
    >) {
        let score: i32 = scorer.score()?;
        Ok(java_int_compare(score, self.bottom))
    }

    fn compare_top<S: Scorable>(&mut self, doc: i32, scorer: &mut S) -> (r: Result<
        i32,
        LuceneError,
    >) {
        let score: i32 = scorer.score()?;
        Ok(java_int_compare(score, self.top_value))
    }

    fn copy<S: Scorable>(&mut self, slot: i32, doc: i32, scorer: &mut S) -> (r: Result<
        (),
        LuceneError,
    >) {
        let score: i32 = scorer.score()?;
        self.scores.set(slot as usize, score);
        Ok(())
    }

    fn set_scorer<S: Scorable>(&mut self, scorer: &mut S) -> (r: Result<(), LuceneError>) {
        Ok(())
    }

    fn set_hits_threshold_reached(&mut self) -> (r: Result<(), LuceneError>) {
        Ok(())
    }

    fn competitive_iterator(&mut self) -> (r: Result<
        Option<Box<dyn DocIdSetIterator>>,
        LuceneError,
    >) {
        Ok(None)
    }

    fn compare_values(&self, first: &SortValue, second: &SortValue) -> (r: i32)
        ensures
            r == second.order(*first),
    {
        second.compare_to(first)
    }
}

/// The byte strings of a field in the documents of a leaf.
pub trait BinaryDocValues {
    /// The byte strings by document.
    spec fn values(&self) -> Map<int, Seq<u8>>;

    /// The current document.
    spec fn current(&self) -> int;

    /// Whether reading never fails.
    spec fn infallible(&self) -> bool;

    /// Moves to a document; returns whether it has a value.
    ///
    /// # Errors
    ///
    /// Whatever reading the document fails with.
    fn advance_exact(&mut self, doc: i32) -> (r: Result<bool, LuceneError>)
        ensures
            old(self).infallible() ==> r is Ok,
            final(self).infallible() == old(self).infallible(),
            final(self).values() == old(self).values(),
            r matches Ok(b) ==> b == old(self).values().contains_key(doc as int)
                && final(self).current() == doc,
    ;

    /// Returns the value of the current document.
    ///
    /// # Errors
    ///
    /// Whatever reading the value fails with.
    fn binary_value(&mut self) -> (r: Result<Vec<u8>, LuceneError>)
        requires
            old(self).values().contains_key(old(self).current()),
        ensures
            old(self).infallible() ==> r is Ok,
            final(self).infallible() == old(self).infallible(),
            final(self).values() == old(self).values(),
            r matches Ok(v) ==> v@ == old(self).values()[old(self).current()],
    ;
}

/// Where the byte strings of a field come from.
pub trait BinaryDocValuesSource {
    /// The byte strings of a leaf.
    type V: BinaryDocValues;

    /// The byte strings of a field in a leaf.
    spec fn values(&self, context: LeafReaderContext, field: Seq<char>) -> Map<int, Seq<u8>>;

    /// Whether reading never fails.
    spec fn infallible(&self) -> bool;

    /// Returns the byte strings of a field in a leaf.
    ///
    /// # Errors
    ///
    /// Whatever reading the leaf fails with.
    fn get_binary(&self, context: &LeafReaderContext, field: &str) -> (r: Result<
        Self::V,
        LuceneError,
    >)
        ensures
            self.infallible() ==> r is Ok,
            r matches Ok(v) ==> v.values() == self.values(*context, field@) && (self.infallible()
                ==> v.infallible()),
    ;
}

/// Compares hits by the byte strings of a field. Documents without one come first, or
/// last.
pub struct TermValComparator<R: BinaryDocValuesSource> {
    values: Vec<Option<Vec<u8>>>,
    doc_terms: Option<R::V>,
    field: String,
    bottom: Option<Vec<u8>>,
    top_value: Option<Vec<u8>>,
    missing_order: i32,
    source: R,
}

/// The byte string that is held, if there is one.
pub open spec fn held(v: Option<Vec<u8>>) -> Option<Seq<u8>> {
    match v {
        Some(bytes) => Some(bytes@),
        None => None,
    }
}

/// The order of two byte strings of which either may be missing.
pub open spec fn order_with_missing(
    a: Option<Seq<u8>>,
    b: Option<Seq<u8>>,
    missing_order: int,
) -> int {
    match (a, b) {
        (None, None) => 0,
        (None, Some(_)) => missing_order,
        (Some(_), None) => -missing_order,
        (Some(x), Some(y)) => order_of_bytes(x, y),
    }
}

/// The byte string of a value; `None` for any other kind of value.
pub open spec fn bytes_shown(v: SortValue) -> Option<Seq<u8>> {
    match v {
        SortValue::Bytes(bytes) => Some(bytes@),
        _ => None,
    }
}

/// Returns a copy of a byte string, if there is one.
fn copied(v: &Option<Vec<u8>>) -> (r: Option<Vec<u8>>)
    ensures
        held(r) == held(*v),
{
    match v {
        Some(bytes) => Some(copy_of(bytes.as_slice())),
        None => None,
    }
}

impl<R: BinaryDocValuesSource> TermValComparator<R> {
    /// 1 when documents without a value come last, -1 when they come first.
    pub closed spec fn missing_order(&self) -> int {
        self.missing_order as int
    }

    /// The field.
    pub closed spec fn field(&self) -> Seq<char> {
        self.field@
    }

    /// Where the values come from.
    pub closed spec fn source(&self) -> R {
        self.source
    }

    /// The values of the current leaf; none before the first leaf.
    pub closed spec fn leaf_values(&self) -> Map<int, Seq<u8>> {
        match self.doc_terms {
            Some(terms) => terms.values(),
            None => Map::empty(),
        }
    }

    /// Creates a comparator with slots for the given number of hits.
    pub fn new(num_hits: usize, field: String, sort_missing_last: bool, source: R) -> (r: Self)
        ensures
            r.inv(),
            r.slots().keys == Seq::new(num_hits as nat, |i: int| None::<Seq<u8>>),
            r.slots().bottom is None,
            r.slots().top is None,
            r.missing_order() == if sort_missing_last {
                1int
            } else {
                -1
            },
            r.field() == field@,
            r.source() == source,
            r.leaf_values() == Map::<int, Seq<u8>>::empty(),
            source.infallible() ==> r.infallible(),
    {
        let mut values: Vec<Option<Vec<u8>>> = Vec::with_capacity(num_hits);
        let mut i: usize = 0;
        while i < num_hits
            invariant
                i <= num_hits,
                values@ =~= Seq::new(i as nat, |j: int| None::<Vec<u8>>),
            decreases num_hits - i,
        {
            values.push(None);
            i += 1;
        }
        let r = TermValComparator {
            values,
            doc_terms: None,
            field,
            bottom: None,
            top_value: None,
            missing_order: if sort_missing_last {
                1
            } else {
                -1
            },
            source,
        };
        assert(r.slots().keys =~= Seq::new(num_hits as nat, |i: int| None::<Seq<u8>>));
        r
    }

    /// Returns the byte string of a document; `None` when it has none.
    fn get_value_for_doc(&mut self, doc: i32) -> (r: Result<Option<Vec<u8>>, LuceneError>)
        requires
            old(self).inv(),
        ensures
            old(self).infallible() ==> r is Ok,
            final(self).infallible() == old(self).infallible(),
            final(self).inv(),
            final(self).same_rules(*old(self)),
            final(self).slots() == old(self).slots(),
            final(self).values == old(self).values,
            final(self).bottom == old(self).bottom,
            final(self).top_value == old(self).top_value,
            final(self).missing_order == old(self).missing_order,
            r matches Ok(v) ==> held(v) == old(self).key_of(doc, 0),
    {
        match self.doc_terms.take() {
            None => Ok(None),
            Some(terms) => {
                let mut doc_terms = terms;
                let found = doc_terms.advance_exact(doc);
                let r = match found {
                    Err(e) => Err(e),
                    Ok(false) => Ok(None),
                    Ok(true) => match doc_terms.binary_value() {
                        Ok(v) => Ok(Some(v)),
                        Err(e) => Err(e),
                    },
                };
                self.doc_terms = Some(doc_terms);
                r
            },
        }
    }

    /// Returns the order of two byte strings of which either may be missing.
    fn compare_bytes(&self, val1: &Option<Vec<u8>>, val2: &Option<Vec<u8>>) -> (r: i32)
        requires
            self.inv(),
        ensures
            r == order_with_missing(held(*val1), held(*val2), self.missing_order()),
            r > i32::MIN,
    {
        match (val1, val2) {
            (None, None) => 0,
            (None, Some(_)) => self.missing_order,
            (Some(_), None) => -self.missing_order,
            (Some(a), Some(b)) => compare_bytes(a.as_slice(), b.as_slice()),
        }
    }
}

impl<R: BinaryDocValuesSource> FieldComparator for TermValComparator<R> {
    type K = Option<Seq<u8>>;

    closed spec fn slots(&self) -> Slots<Option<Seq<u8>>> {
        Slots {
            keys: self.values@.map_values(|v: Option<Vec<u8>>| held(v)),
            bottom: held(self.bottom),
            top: held(self.top_value),
        }
    }

    open spec fn rank(&self, a: Option<Seq<u8>>, b: Option<Seq<u8>>) -> int {
        order_with_missing(a, b, self.missing_order())
    }

    open spec fn key_of(&self, doc: i32, score: i32) -> Option<Seq<u8>> {
        if self.leaf_values().contains_key(doc as int) {
            Some(self.leaf_values()[doc as int])
        } else {
            None
        }
    }

    open spec fn shows(&self, key: Option<Seq<u8>>, v: SortValue) -> bool {
        match key {
            None => v is Null,
            Some(bytes) => v matches SortValue::Bytes(b) && b@ == bytes,
        }
    }

    open spec fn top_of(&self, value: SortValue) -> Option<Seq<u8>> {
        match value {
            SortValue::Bytes(bytes) => Some(bytes@),
            _ => None,
        }
    }

    open spec fn inv(&self) -> bool {
        self.missing_order() == 1 || self.missing_order() == -1
    }

    closed spec fn infallible(&self) -> bool {
        self.source.infallible() && (self.doc_terms matches Some(terms) ==> terms.infallible())
    }

    open spec fn readable_from(&self) -> int {
        i32::MIN as int
    }

    open spec fn same_rules(&self, other: Self) -> bool {
        &&& self.missing_order() == other.missing_order()
        &&& self.field() == other.field()
        &&& self.source() == other.source()
        &&& self.leaf_values() == other.leaf_values()
    }

    open spec fn enters(&self, context: LeafReaderContext, after: Self) -> bool {
        &&& after.leaf_values() == self.source().values(context, self.field())
        &&& after.missing_order() == self.missing_order()
        &&& after.field() == self.field()
        &&& after.source() == self.source()
    }

    open spec fn takes_scorer(&self, after: Self) -> bool {
        after == *self
    }

    open spec fn reaches_threshold(&self, after: Self) -> bool {
        after == *self
    }

    open spec fn competitive_docs(&self) -> Option<Set<int>> {
        None
    }

    fn compare(&self, slot1: i32, slot2: i32) -> (r: i32) {
        self.compare_bytes(&self.values[slot1 as usize], &self.values[slot2 as usize])
    }

    fn set_top_value(&mut self, value: SortValue) {
        self.top_value = match value {
            SortValue::Bytes(bytes) => Some(bytes),
            _ => None,
        };
    }

    fn value(&self, slot: i32) -> (r: SortValue) {
        match &self.values[slot as usize] {
            None => SortValue::Null,
            Some(value) => SortValue::Bytes(copy_of(value.as_slice())),
        }
    }

    fn get_leaf_comparator(&mut self, context: &LeafReaderContext) -> (r: Result<(), LuceneError>) {
        let terms = self.source.get_binary(context, self.field.as_str())?;
        self.doc_terms = Some(terms);
        Ok(())
    }

    fn set_bottom(&mut self, slot: i32) -> (r: Result<(), LuceneError>) {
        self.bottom = copied(&self.values[slot as usize]);
        Ok(())
    }

    fn compare_bottom<S: Scorable>(&mut self, doc: i32, scorer: &mut S) -> (r: Result<
        i32,
        LuceneError,
    >) {
        let value = self.get_value_for_doc(doc)?;
        Ok(self.compare_bytes(&self.bottom, &value))
    }

    fn compare_top<S: Scorable>(&mut self, doc: i32, scorer: &mut S) -> (r: Result<
        i32,
        LuceneError,
    >) {
        let value = self.get_value_for_doc(doc)?;
        Ok(self.compare_bytes(&self.top_value, &value))
    }

    fn copy<S: Scorable>(&mut self, slot: i32, doc: i32, scorer: &mut S) -> (r: Result<
        (),
        LuceneError,
    >) {
        let value = self.get_value_for_doc(doc)?;
        let ghost before = self.slots().keys;
        self.values.set(slot as usize, value);
        assert(self.slots().keys =~= before.update(slot as int, held(value)));
        Ok(())
    }

    fn set_scorer<S: Scorable>(&mut self, scorer: &mut S) -> (r: Result<(), LuceneError>) {
        Ok(())
    }

    fn set_hits_threshold_reached(&mut self) -> (r: Result<(), LuceneError>) {
        Ok(())
    }

    fn competitive_iterator(&mut self) -> (r: Result<
        Option<Box<dyn DocIdSetIterator>>,
        LuceneError,
    >) {
        Ok(None)
    }

    fn compare_values(&self, first: &SortValue, second: &SortValue) -> (r: i32)
        ensures
            r == order_with_missing(
                bytes_shown(*first),
                bytes_shown(*second),
                self.missing_order(),
            ),
    {
        match (first.as_bytes(), second.as_bytes()) {
            (None, None) => 0,
            (None, Some(_)) => self.missing_order,
            (Some(_), None) => -self.missing_order,
            (Some(a), Some(b)) => compare_bytes(a.as_slice(), b.as_slice()),
        }
    }
}

} // verus!
