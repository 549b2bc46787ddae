//! Confirmation that the values of documents lie in a range or in a set.

use std::sync::Arc;

use vstd::prelude::*;
use vstd::string::*;

use crate::error::LuceneError;
use crate::search::doc_id_set_iterator::{
    empty, is_first_from, loaded_bits, DocIdSetIterator, DocIds, EmptyDocIdSetIterator,
    NO_MORE_DOCS,
};
use crate::search::doc_values::{
    any_in_range, ascending, docs_in_range, BlocksAt, DocValues, DocValuesSkipper, Match,
    SkipBlocks, ValuesAt,
};
use crate::util::bits::Bits;
use crate::util::fixed_bit_set::FixedBitSet;

verus! {

/// The cost of confirming a document by one value: the integer that stands for 2 in the
/// order of single-precision numbers.
pub const ONE_VALUE_COST: i32 = 0x4000_0000;

/// The cost of confirming a document by several values: the integer that stands for 5 in
/// the order of single-precision numbers.
pub const MANY_VALUES_COST: i32 = 0x40a0_0000;

/// Whether the bit of `ord` is set.
pub open spec fn has_ord(ords: Seq<bool>, ord: int) -> bool {
    0 <= ord < ords.len() && ords[ord]
}

/// Some value is in `[min, max]` and in `ords`.
pub open spec fn any_in_set(values: Seq<i64>, min: i64, max: i64, ords: Seq<bool>) -> bool {
    exists|k: int|
        0 <= k < values.len() && min <= #[trigger] values[k] <= max && has_ord(
            ords,
            values[k] as int,
        )
}

/// How the values of a document are confirmed.
enum RangePredicate {
    /// The value is within `[min, max]`.
    NumericRange { min: i64, max: i64 },
    /// The first value that is at least `min` is at most `max`.
    SortedNumericRange { min: i64, max: i64 },
    /// The ordinal is within `[min, max]`.
    OrdinalRange { min: i64, max: i64 },
    /// The first ordinal that is at least `min` is at most `max`.
    SortedSetOrdinalRange { min: i64, max: i64 },
    /// The ordinal is in `ords`.
    SortedOrdinalSet { ords: Arc<FixedBitSet> },
    /// Some ordinal is within `[min, max]` and in `ords`.
    SortedSetOrdinalSet { min: i64, max: i64, ords: Arc<FixedBitSet> },
    /// Nothing matches.
    Never,
}

impl RangePredicate {
    spec fn confirms(self, values: Seq<i64>) -> bool {
        match self {
            RangePredicate::NumericRange { min, max } => any_in_range(values, min, max),
            RangePredicate::SortedNumericRange { min, max } => any_in_range(values, min, max),
            RangePredicate::OrdinalRange { min, max } => any_in_range(values, min, max),
            RangePredicate::SortedSetOrdinalRange { min, max } => any_in_range(values, min, max),
            RangePredicate::SortedOrdinalSet { ords } => has_ord(ords@, values[0] as int),
            RangePredicate::SortedSetOrdinalSet { min, max, ords } => any_in_set(
                values,
                min,
                max,
                ords@,
            ),
            RangePredicate::Never => false,
        }
    }

    /// The predicate can read the values.
    spec fn reads(self, values: Seq<i64>) -> bool {
        match self {
            RangePredicate::NumericRange { min, max } => values.len() == 1,
            RangePredicate::OrdinalRange { min, max } => values.len() == 1,
            RangePredicate::SortedOrdinalSet { ords } => values.len() == 1 && 0 <= values[0]
                < ords@.len(),
            RangePredicate::SortedSetOrdinalSet { min, max, ords } => 0 <= min && max < ords@.len(),
            _ => true,
        }
    }

    /// The range, for a predicate that asks for a value in a range.
    spec fn is_range(self, bounds: (i64, i64)) -> bool {
        match self {
            RangePredicate::NumericRange { min, max } => bounds == (min, max),
            RangePredicate::SortedNumericRange { min, max } => bounds == (min, max),
            RangePredicate::OrdinalRange { min, max } => bounds == (min, max),
            RangePredicate::SortedSetOrdinalRange { min, max } => bounds == (min, max),
            _ => false,
        }
    }
}

/// Every document has one value.
pub open spec fn single_valued(table: Map<int, Seq<i64>>) -> bool {
    forall|d: int| #[trigger] table.dom().contains(d) ==> table[d].len() == 1
}

/// Every document has one ordinal, less than `count`.
pub open spec fn ordinals_below(table: Map<int, Seq<i64>>, count: int) -> bool {
    forall|d: int| #[trigger]
        table.dom().contains(d) ==> table[d].len() == 1 && 0 <= table[d][0] < count
}

/// Whether the bounds of the skipper show that no value is within `[min, max]`.
pub open spec fn out_of_reach<P: DocValuesSkipper>(skipper: Option<P>, min: i64, max: i64) -> bool {
    skipper matches Some(skipper) && (min > skipper.upper_bound() || max < skipper.lower_bound())
}

/// Whether every ordinal between the first and the last one is among them.
pub open spec fn is_contiguous(ordinals: Seq<i64>) -> bool {
    forall|o: i64| ordinals[0] <= o <= ordinals.last() ==> #[trigger] ordinals.contains(o)
}

/// A set of ordinals, with the least and the greatest one.
pub struct OrdinalSet {
    /// The least ordinal.
    pub min: i64,
    /// The greatest ordinal.
    pub max: i64,
    /// The ordinals.
    pub ords: Arc<FixedBitSet>,
    /// Whether every ordinal of `[min, max]` is in the set.
    pub contiguous: bool,
}

impl OrdinalSet {
    /// The bounds frame the ordinals.
    pub open spec fn valid(&self) -> bool {
        &&& 0 <= self.min <= self.max < self.ords@.len()
        &&& self.contiguous ==> forall|o: int| self.min <= o <= self.max ==> has_ord(self.ords@, o)
        &&& forall|o: int| #[trigger] has_ord(self.ords@, o) ==> self.min <= o <= self.max
    }

    /// Returns whether no value of the skipper is between the bounds.
    fn disjoint<K: DocValuesSkipper>(&self, skipper: &Option<K>) -> (r: bool)
        ensures
            r == out_of_reach(*skipper, self.min, self.max),
            r ==> forall|d: int, k: int|
                skipper->0.table().dom().contains(d) && 0 <= k < skipper->0.table()[d].len()
                    ==> !(self.min <= #[trigger] skipper->0.table()[d][k] <= self.max),
    {
        match skipper {
            None => false,
            Some(skipper) => self.min > skipper.global_max_value() || self.max
                < skipper.global_min_value(),
        }
    }
}

/// Returns the set of the given ordinals, which are in increasing order and may
/// repeat; `None` without an ordinal.
///
/// # Errors
///
/// [`LuceneError::IllegalArgument`] if there are ordinals but `ord_count` is
/// negative.
pub fn build_ordinal_set(ordinals: &[i64], ord_count: i64) -> (r: Result<
    Option<OrdinalSet>,
    LuceneError,
>)
    requires
        ascending(ordinals@),
        ord_count <= usize::MAX,
        ord_count >= 0 ==> forall|i: int|
            0 <= i < ordinals@.len() ==> 0 <= #[trigger] ordinals@[i] < ord_count,
    ensures
        r is Err <==> ordinals@.len() > 0 && ord_count < 0,
        r matches Err(e) ==> e.is_illegal_argument("the number of ordinals is negative"@),
        r matches Ok(set) ==> (set is None <==> ordinals@.len() == 0),
        r matches Ok(Some(set)) ==> {
            &&& set.valid()
            &&& set.min == ordinals@[0]
            &&& set.max == ordinals@.last()
            &&& set.ords@.len() == ord_count
            &&& forall|o: int| #[trigger]
                has_ord(set.ords@, o) <==> exists|i: int|
                    0 <= i < ordinals@.len() && #[trigger] ordinals@[i] == o
            &&& set.contiguous <==> forall|o: int|
                set.min <= o <= set.max ==> #[trigger] has_ord(set.ords@, o)
        },
{
    if ordinals.len() == 0 {
        return Ok(None);
    }
    if ord_count < 0 {
        return Err(LuceneError::IllegalArgument("the number of ordinals is negative".to_owned()));
    }
    let mut ords: FixedBitSet = FixedBitSet::new(ord_count as usize);
    let min: i64 = ordinals[0];
    ords.set(min as usize);
    let mut max: i64 = min;
    let mut distinct_count: i64 = 1;
    let mut i: usize = 1;
    proof {
        assert forall|o: int| #[trigger] has_ord(ords@, o) <==> exists|j: int|
            0 <= j < 1 && #[trigger] ordinals@[j] == o by {
            if o == min {
                assert(ordinals@[0] == o);
            }
        }
    }
    while i < ordinals.len()
        invariant
            1 <= i <= ordinals@.len(),
            ord_count <= usize::MAX,
            ascending(ordinals@),
            forall|i: int| 0 <= i < ordinals@.len() ==> 0 <= #[trigger] ordinals@[i] < ord_count,
            ords@.len() == ord_count,
            min == ordinals@[0],
            max == ordinals@[i - 1],
            0 <= min <= max,
            1 <= distinct_count <= max - min + 1,
            distinct_count == max - min + 1 <==> forall|o: int|
                min <= o <= max ==> #[trigger] has_ord(ords@, o),
            forall|o: int| #[trigger]
                has_ord(ords@, o) <==> exists|j: int| 0 <= j < i && #[trigger] ordinals@[j] == o,
        decreases ordinals.len() - i,
    {
        let ghost bits0 = ords@;
        let ghost max0 = max as int;
        let ord: i64 = ordinals[i];
        assert(ordinals@[i - 1] <= ordinals@[i as int]);
        assert(has_ord(bits0, max0)) by {
            assert(ordinals@[i - 1] == max0);
        }
        max = ord;
        let already: bool = ords.get(max as usize);
        proof {
            if ord > max0 && already {
                assert(has_ord(bits0, ord as int));
                let j = choose|j: int| 0 <= j < i && #[trigger] ordinals@[j] == ord;
                assert(ordinals@[j] <= ordinals@[i - 1]);
            }
        }
        if !already {
            ords.set(max as usize);
            distinct_count += 1;
        }
        proof {
            assert forall|o: int| #[trigger] has_ord(ords@, o) <==> has_ord(bits0, o) || o
                == ord by {
            }
            assert forall|o: int| #[trigger] has_ord(ords@, o) <==> exists|j: int|
                0 <= j < i + 1 && #[trigger] ordinals@[j] == o by {
                if has_ord(bits0, o) {
                    let j = choose|j: int| 0 <= j < i && #[trigger] ordinals@[j] == o;
                    assert(ordinals@[j] == o);
                }
                if o == ord {
                    assert(ordinals@[i as int] == o);
                }
                if exists|j: int| 0 <= j < i + 1 && #[trigger] ordinals@[j] == o {
                    let j = choose|j: int| 0 <= j < i + 1 && #[trigger] ordinals@[j] == o;
                    if j < i {
                        assert(has_ord(bits0, o));
                    }
                }
            }
            let full = forall|o: int| min <= o <= max ==> #[trigger] has_ord(ords@, o);
            let full0 = forall|o: int| min <= o <= max0 ==> #[trigger] has_ord(bits0, o);
            if full {
                assert forall|o: int| min <= o <= max0 implies #[trigger] has_ord(bits0, o) by {
                    assert(has_ord(ords@, o));
                }
                assert(full0);
                if max > max0 + 1 {
                    assert(has_ord(ords@, max0 + 1));
                    assert(has_ord(bits0, max0 + 1));
                    let j = choose|j: int| 0 <= j < i && #[trigger] ordinals@[j] == max0 + 1;
                    assert(ordinals@[j] <= ordinals@[i - 1]);
                }
            }
            if distinct_count == max - min + 1 {
                assert(full0);
                assert forall|o: int| min <= o <= max implies #[trigger] has_ord(ords@, o) by {
                    if o <= max0 {
                        assert(has_ord(bits0, o));
                    }
                }
            }
        }
        i += 1;
    }
    proof {
        assert forall|o: int| #[trigger] has_ord(ords@, o) implies min <= o <= max by {
            let j = choose|j: int| 0 <= j < i && #[trigger] ordinals@[j] == o;
            assert(ordinals@[0] <= ordinals@[j]);
            assert(ordinals@[j] <= ordinals@[i - 1]);
        }
    }
    Ok(
        Some(
            OrdinalSet {
                min,
                max,
                ords: Arc::new(ords),
                contiguous: distinct_count == max - min + 1,
            },
        ),
    )
}

/// A set is contiguous where its ordinals are.
proof fn lemma_contiguous(set: OrdinalSet, ordinals: Seq<i64>)
    requires
        set.min == ordinals[0],
        set.max == ordinals.last(),
        forall|o: int| #[trigger]
            has_ord(set.ords@, o) <==> exists|i: int|
                0 <= i < ordinals.len() && #[trigger] ordinals[i] == o,
        set.contiguous <==> forall|o: int|
            set.min <= o <= set.max ==> #[trigger] has_ord(set.ords@, o),
    ensures
        set.contiguous == is_contiguous(ordinals),
{
    if set.contiguous {
        assert forall|o: i64| ordinals[0] <= o <= ordinals.last() implies #[trigger] ordinals.contains(
        o) by {
            assert(has_ord(set.ords@, o as int));
            let i = choose|i: int| 0 <= i < ordinals.len() && #[trigger] ordinals[i] == o;
            assert(ordinals[i] == o);
        }
    }
    if is_contiguous(ordinals) {
        assert forall|o: int| set.min <= o <= set.max implies #[trigger] has_ord(set.ords@, o) by {
            assert(ordinals.contains(o as i64));
            let i = choose|i: int| 0 <= i < ordinals.len() && ordinals[i] == o as i64;
            assert(ordinals[i] == o);
        }
    }
}

/// Confirms that the only value is in `[min, max]`.
fn value_in_range<V: DocValues>(values: &mut V, min: i64, max: i64) -> (r: Result<
    bool,
    LuceneError,
>)
    requires
        old(values).inv(),
        old(values).view().table.dom().contains(old(values).view().doc),
        old(values).view().table[old(values).view().doc].len() == 1,
    ensures
        old(values).infallible() ==> r is Ok,
        final(values).infallible() == old(values).infallible(),
        final(values).view() == old(values).view(),
        r matches Ok(b) ==> {
            &&& final(values).inv()
            &&& b == any_in_range(old(values).view().table[old(values).view().doc], min, max)
        },
{
    let v: i64 = values.value(0)?;
    assert(old(values).view().table[old(values).view().doc][0] == v);
    Ok(v >= min && v <= max)
}

/// Confirms that the first value at or above `min` is at most `max`.
fn first_value_in_range<V: DocValues>(values: &mut V, min: i64, max: i64) -> (r: Result<
    bool,
    LuceneError,
>)
    requires
        old(values).inv(),
        old(values).view().valid(),
        old(values).view().table.dom().contains(old(values).view().doc),
    ensures
        old(values).infallible() ==> r is Ok,
        final(values).infallible() == old(values).infallible(),
        final(values).view() == old(values).view(),
        r matches Ok(b) ==> {
            &&& final(values).inv()
            &&& b == any_in_range(old(values).view().table[old(values).view().doc], min, max)
        },
{
    let ghost view = old(values).view();
    let ghost all = view.table[view.doc];
    assert(ascending(all));
    let count: usize = values.value_count()?;
    let mut k: usize = 0;
    while k < count
        invariant
            view == old(values).view(),
            all == view.table[view.doc],
            ascending(all),
            count == all.len(),
            k <= count,
            view.table.dom().contains(view.doc),
            values.inv(),
            values.view() == view,
            values.infallible() == old(values).infallible(),
            forall|j: int| 0 <= j < k ==> #[trigger] all[j] < min,
        decreases count - k,
    {
        let v: i64 = values.value(k)?;
        assert(v == all[k as int]);
        if v >= min {
            return Ok(v <= max);
        }
        k += 1;
    }
    Ok(false)
}

/// Confirms that some value in `[min, max]` is in `ords`.
fn any_value_in_set<V: DocValues>(
    values: &mut V,
    min: i64,
    max: i64,
    ords: &FixedBitSet,
) -> (r: Result<bool, LuceneError>)
    requires
        old(values).inv(),
        old(values).view().valid(),
        old(values).view().table.dom().contains(old(values).view().doc),
        0 <= min,
        max < ords@.len(),
    ensures
        old(values).infallible() ==> r is Ok,
        final(values).infallible() == old(values).infallible(),
        final(values).view() == old(values).view(),
        r matches Ok(b) ==> {
            &&& final(values).inv()
            &&& b == any_in_set(
                old(values).view().table[old(values).view().doc],
                min,
                max,
                ords@,
            )
        },
{
    let ghost view = old(values).view();
    let ghost all = view.table[view.doc];
    assert(ascending(all));
    let num_ords: usize = ords.length();
    let count: usize = values.value_count()?;
    let mut k: usize = 0;
    while k < count
        invariant
            view == old(values).view(),
            all == view.table[view.doc],
            ascending(all),
            count == all.len(),
            k <= count,
            num_ords == ords@.len(),
            0 <= min,
            max < ords@.len(),
            view.table.dom().contains(view.doc),
            values.inv(),
            values.view() == view,
            values.infallible() == old(values).infallible(),
            forall|j: int|
                0 <= j < k ==> !(min <= #[trigger] all[j] <= max && has_ord(ords@, all[j] as int)),
        decreases count - k,
    {
        let v: i64 = values.value(k)?;
        assert(v == all[k as int]);
        if v > max {
            return Ok(false);
        }
        if v >= min && ords.get(v as usize) {
            return Ok(true);
        }
        k += 1;
    }
    Ok(false)
}

/// The values that are confirmed.
enum RangeValues<V> {
    Present(V),
    Empty(EmptyDocIdSetIterator),
}

/// Confirms that the values of documents lie in a range or in a set, with the
/// help of blocks of documents where these are known.
///
/// The iteration runs over the documents of the blocks, or over the documents
/// with values where there are no blocks; [`Self::matches`] decides whether the
/// current one matches.
pub struct DocValuesRangeIterator<V: DocValues, K: SkipBlocks> {
    values: RangeValues<V>,
    block_iterator: Option<K>,
    predicate: RangePredicate,
    match_cost: i32,
    bulk: bool,
    bulk_bounds: (i64, i64),
}

/// No document with values at or after `from` has been passed.
spec fn unpassed(view: ValuesAt, from: int) -> bool {
    forall|d: int| #[trigger] view.table.dom().contains(d) && d >= from ==> d >= view.doc
}

/// How `it` iterates over the values within `[min, max]`: over the blocks of the skipper where
/// there is one, which are decided at once where `whole_range` says that every value of the range
/// matches; over nothing where the skipper shows that there is no such value.
pub open spec fn iterates_over<V: DocValues, K: SkipBlocks, P: DocValuesSkipper<Blocks = K>>(
    it: DocValuesRangeIterator<V, K>,
    values: V,
    skipper: Option<P>,
    min: i64,
    max: i64,
    whole_range: bool,
    match_cost: i32,
) -> bool {
    if out_of_reach(skipper, min, max) {
        iterates_over_nothing(it)
    } else {
        &&& it.table() == values.view().table
        &&& it.reported_match_cost() == match_cost
        &&& it.decides_blocks() == (skipper is Some && whole_range)
        &&& it.has_blocks() == skipper is Some
        &&& skipper is Some ==> it.blocks().describes(it.table(), min, max)
        &&& skipper is None ==> it.ids() == values.view().ids()
        &&& it.infallible() <==> values.infallible() && (skipper matches Some(skipper)
            ==> skipper.infallible())
    }
}

/// Whether `it` iterates over no document.
pub open spec fn iterates_over_nothing<V: DocValues, K: SkipBlocks>(
    it: DocValuesRangeIterator<V, K>,
) -> bool {
    &&& it.ids() == (DocIds { docs: Set::empty(), doc: -1 })
    &&& it.reported_match_cost() == 0
    &&& !it.decides_blocks()
    &&& !it.has_blocks()
    &&& it.infallible()
}

impl<V: DocValues, K: SkipBlocks> DocValuesRangeIterator<V, K> {
    /// The documents with values, and their values.
    pub closed spec fn table(&self) -> Map<int, Seq<i64>> {
        match self.values {
            RangeValues::Present(values) => values.view().table,
            RangeValues::Empty(_) => Map::empty(),
        }
    }

    /// The documents that match.
    pub closed spec fn hits(&self) -> Set<int> {
        Set::new(
            |d: int|
                self.table().dom().contains(d) && self.predicate.confirms(self.table()[d]),
        )
    }

    /// The documents of the iteration, and the current one.
    pub closed spec fn ids(&self) -> DocIds {
        match self.block_iterator {
            Some(blocks) => blocks.view().ids,
            None => match self.values {
                RangeValues::Present(values) => values.view().ids(),
                RangeValues::Empty(none) => none.view(),
            },
        }
    }

    /// Whether no step fails.
    pub closed spec fn infallible(&self) -> bool {
        &&& self.values matches RangeValues::Present(values) ==> values.infallible()
        &&& self.block_iterator matches Some(blocks) ==> blocks.infallible()
    }

    /// The cost of a confirmation.
    pub closed spec fn reported_match_cost(&self) -> i32 {
        self.match_cost
    }

    /// Whether whole blocks are decided at once.
    pub closed spec fn decides_blocks(&self) -> bool {
        self.bulk
    }

    /// Whether the iteration runs over blocks.
    pub closed spec fn has_blocks(&self) -> bool {
        self.block_iterator is Some
    }

    /// The blocks.
    pub closed spec fn blocks(&self) -> BlocksAt {
        self.block_iterator->0.view()
    }

    /// The values that the iteration is over match what the blocks say, and no
    /// value that may still be needed has been passed.
    pub closed spec fn inv(&self) -> bool {
        &&& match self.values {
            RangeValues::Present(values) => values.inv() && values.view().valid(),
            RangeValues::Empty(none) => none.inv() && none.view().docs == Set::<int>::empty()
                && self.block_iterator is None,
        }
        &&& forall|d: int| #[trigger]
            self.table().dom().contains(d) ==> self.predicate.reads(self.table()[d])
        &&& self.bulk ==> self.block_iterator is Some && self.predicate.is_range(self.bulk_bounds)
        &&& self.block_iterator matches Some(blocks) ==> {
            &&& blocks.inv()
            &&& blocks.view().valid()
            &&& forall|d: int| #[trigger]
                self.hits().contains(d) ==> blocks.view().ids.docs.contains(d)
            &&& self.bulk ==> blocks.view().describes(
                self.table(),
                self.bulk_bounds.0,
                self.bulk_bounds.1,
            )
            &&& self.values matches RangeValues::Present(values) ==> unpassed(
                values.view(),
                blocks.view().ids.doc,
            )
        }
    }

    fn build<P: DocValuesSkipper<Blocks = K>>(
        values: V,
        skipper: Option<P>,
        predicate: RangePredicate,
        bulk_bounds: (i64, i64),
        match_cost: i32,
        bulk_when_skipping: bool,
    ) -> (r: Self)
        requires
            values.inv(),
            values.view().valid(),
            values.view().doc == -1,
            skipper matches Some(skipper) ==> skipper.table() == values.view().table,
            forall|d: int| #[trigger]
                values.view().table.dom().contains(d) ==> predicate.reads(values.view().table[d])
                    && (predicate.confirms(values.view().table[d]) ==> any_in_range(
                    values.view().table[d],
                    bulk_bounds.0,
                    bulk_bounds.1,
                )),
            bulk_when_skipping ==> predicate.is_range(bulk_bounds),
        ensures
            r.inv(),
            r.ids().doc == -1,
            r.table() == values.view().table,
            r.predicate == predicate,
            r.match_cost == match_cost,
            r.bulk == (bulk_when_skipping && skipper is Some),
            r.has_blocks() == skipper is Some,
            skipper is Some ==> r.blocks().describes(r.table(), bulk_bounds.0, bulk_bounds.1),
            skipper is None ==> r.ids() == values.view().ids(),
            r.infallible() <==> values.infallible() && (skipper matches Some(skipper)
                ==> skipper.infallible()),
    {
        match skipper {
            None => DocValuesRangeIterator {
                values: RangeValues::Present(values),
                block_iterator: None,
                predicate,
                match_cost,
                bulk: false,
                bulk_bounds,
            },
            Some(skipper) => {
                let blocks = skipper.into_blocks(bulk_bounds.0, bulk_bounds.1);
                let r = DocValuesRangeIterator {
                    values: RangeValues::Present(values),
                    block_iterator: Some(blocks),
                    predicate,
                    match_cost,
                    bulk: bulk_when_skipping,
                    bulk_bounds,
                };
                proof {
                    assert forall|d: int| #[trigger] r.hits().contains(
                        d,
                    ) implies blocks.view().ids.docs.contains(d) by {
                        assert(r.table().dom().contains(d));
                        assert(docs_in_range(r.table(), bulk_bounds.0, bulk_bounds.1).contains(d));
                    }
                }
                r
            },
        }
    }

    /// Confirms that the only value of a document is within `[min, max]`.
    pub fn for_range<P: DocValuesSkipper<Blocks = K>>(
        values: V,
        skipper: Option<P>,
        min: i64,
        max: i64,
    ) -> (r: Self)
        requires
            values.inv(),
            values.view().valid(),
            values.view().doc == -1,
            single_valued(values.view().table),
            skipper matches Some(skipper) ==> skipper.table() == values.view().table,
        ensures
            r.inv(),
            r.ids().doc == -1,
            r.table() == values.view().table,
            r.hits() == docs_in_range(values.view().table, min, max),
            r.reported_match_cost() == ONE_VALUE_COST,
            r.decides_blocks() == skipper is Some,
            r.has_blocks() == skipper is Some,
            skipper is Some ==> r.blocks().describes(r.table(), min, max),
            skipper is None ==> r.ids() == values.view().ids(),
            r.infallible() <==> values.infallible() && (skipper matches Some(skipper)
                ==> skipper.infallible()),
    {
        let r = Self::build(
            values,
            skipper,
            RangePredicate::NumericRange { min, max },
            (min, max),
            ONE_VALUE_COST,
            true,
        );
        assert(r.hits() =~= docs_in_range(r.table(), min, max));
        r
    }

    /// Confirms that some value of a document is within `[min, max]`.
    pub fn for_sorted_numeric_range<P: DocValuesSkipper<Blocks = K>>(
        values: V,
        skipper: Option<P>,
        min: i64,
        max: i64,
    ) -> (r: Self)
        requires
            values.inv(),
            values.view().valid(),
            values.view().doc == -1,
            skipper matches Some(skipper) ==> skipper.table() == values.view().table,
        ensures
            r.inv(),
            r.ids().doc == -1,
            r.table() == values.view().table,
            r.hits() == docs_in_range(values.view().table, min, max),
            r.reported_match_cost() == if skipper is Some {
                ONE_VALUE_COST as int
            } else {
                MANY_VALUES_COST as int
            },
            r.decides_blocks() == skipper is Some,
            r.has_blocks() == skipper is Some,
            skipper is Some ==> r.blocks().describes(r.table(), min, max),
            skipper is None ==> r.ids() == values.view().ids(),
            r.infallible() <==> values.infallible() && (skipper matches Some(skipper)
                ==> skipper.infallible()),
    {
        let match_cost: i32 = if skipper.is_some() {
            ONE_VALUE_COST
        } else {
            MANY_VALUES_COST
        };
        let r = Self::build(
            values,
            skipper,
            RangePredicate::SortedNumericRange { min, max },
            (min, max),
            match_cost,
            true,
        );
        assert(r.hits() =~= docs_in_range(r.table(), min, max));
        r
    }

    /// Confirms that the only ordinal of a document is within `[min, max]`.
    pub fn for_ordinal_range<P: DocValuesSkipper<Blocks = K>>(
        values: V,
        skipper: Option<P>,
        min: i64,
        max: i64,
    ) -> (r: Self)
        requires
            values.inv(),
            values.view().valid(),
            values.view().doc == -1,
            single_valued(values.view().table),
            skipper matches Some(skipper) ==> skipper.table() == values.view().table,
        ensures
            r.inv(),
            r.ids().doc == -1,
            r.table() == values.view().table,
            r.hits() == docs_in_range(values.view().table, min, max),
            r.reported_match_cost() == ONE_VALUE_COST,
            r.decides_blocks() == skipper is Some,
            r.has_blocks() == skipper is Some,
            skipper is Some ==> r.blocks().describes(r.table(), min, max),
            skipper is None ==> r.ids() == values.view().ids(),
            r.infallible() <==> values.infallible() && (skipper matches Some(skipper)
                ==> skipper.infallible()),
    {
        let r = Self::build(
            values,
            skipper,
            RangePredicate::OrdinalRange { min, max },
            (min, max),
            ONE_VALUE_COST,
            true,
        );
        assert(r.hits() =~= docs_in_range(r.table(), min, max));
        r
    }

    /// Confirms that some ordinal of a document is within `[min, max]`.
    pub fn for_sorted_set_ordinal_range<P: DocValuesSkipper<Blocks = K>>(
        values: V,
        skipper: Option<P>,
        min: i64,
        max: i64,
    ) -> (r: Self)
        requires
            values.inv(),
            values.view().valid(),
            values.view().doc == -1,
            skipper matches Some(skipper) ==> skipper.table() == values.view().table,
        ensures
            r.inv(),
            r.ids().doc == -1,
            r.table() == values.view().table,
            r.hits() == docs_in_range(values.view().table, min, max),
            r.reported_match_cost() == MANY_VALUES_COST,
            r.decides_blocks() == skipper is Some,
            r.has_blocks() == skipper is Some,
            skipper is Some ==> r.blocks().describes(r.table(), min, max),
            skipper is None ==> r.ids() == values.view().ids(),
            r.infallible() <==> values.infallible() && (skipper matches Some(skipper)
                ==> skipper.infallible()),
    {
        let r = Self::build(
            values,
            skipper,
            RangePredicate::SortedSetOrdinalRange { min, max },
            (min, max),
            MANY_VALUES_COST,
            true,
        );
        assert(r.hits() =~= docs_in_range(r.table(), min, max));
        r
    }

    /// Confirms that the only ordinal of a document is one of `ordinals`, which
    /// are in increasing order and less than `value_count`.
    ///
    /// # Errors
    ///
    /// [`LuceneError::IllegalArgument`] if there are ordinals but the number of
    /// ordinals is negative.
    pub fn for_ordinal_set<P: DocValuesSkipper<Blocks = K>>(
        values: V,
        skipper: Option<P>,
        ordinals: &[i64],
        value_count: i64,
    ) -> (r: Result<Self, LuceneError>)
        requires
            values.inv(),
            values.view().valid(),
            values.view().doc == -1,
            ascending(ordinals@),
            value_count <= usize::MAX,
            value_count >= 0 ==> ordinals_below(values.view().table, value_count as int),
            value_count >= 0 ==> forall|i: int|
                0 <= i < ordinals@.len() ==> 0 <= #[trigger] ordinals@[i] < value_count,
            skipper matches Some(skipper) ==> skipper.table() == values.view().table,
        ensures
            r is Err <==> ordinals@.len() > 0 && value_count < 0,
            r matches Err(e) ==> e.is_illegal_argument("the number of ordinals is negative"@),
            r matches Ok(it) ==> {
                &&& it.inv()
                &&& it.ids().doc == -1
                &&& forall|d: int| #[trigger]
                    it.hits().contains(d) <==> values.view().table.dom().contains(d)
                        && ordinals@.contains(values.view().table[d][0])
                &&& if ordinals@.len() == 0 {
                    iterates_over_nothing(it)
                } else {
                    iterates_over(
                        it,
                        values,
                        skipper,
                        ordinals@[0],
                        ordinals@.last(),
                        is_contiguous(ordinals@),
                        ONE_VALUE_COST,
                    )
                }
            },
    {
        let ghost table = values.view().table;
        let ordinal_set = build_ordinal_set(ordinals, value_count)?;
        match ordinal_set {
            None => Ok(Self::empty()),
            Some(set) => {
                proof {
                    lemma_contiguous(set, ordinals@);
                    assert forall|o: i64| #[trigger] ordinals@.contains(o) == has_ord(
                        set.ords@,
                        o as int,
                    ) by {
                        if has_ord(set.ords@, o as int) {
                            let i = choose|i: int|
                                0 <= i < ordinals@.len() && #[trigger] ordinals@[i] == o;
                            assert(ordinals@[i] == o);
                        }
                    }
                }
                if set.disjoint(&skipper) {
                    proof {
                        assert forall|d: int| table.dom().contains(d) implies !ordinals@.contains(
                            #[trigger] table[d][0],
                        ) by {
                            assert(table[d].len() == 1);
                            assert(!(set.min <= table[d][0] <= set.max));
                        }
                    }
                    return Ok(Self::empty());
                }
                if set.contiguous {
                    let r = Self::for_ordinal_range(values, skipper, set.min, set.max);
                    proof {
                        assert forall|d: int| #[trigger] r.hits().contains(d)
                            <==> table.dom().contains(d) && ordinals@.contains(table[d][0]) by {
                            if table.dom().contains(d) {
                                assert(table[d].len() == 1);
                                let v = table[d][0];
                                assert(any_in_range(table[d], set.min, set.max) == (set.min <= v
                                    <= set.max));
                                assert(ordinals@.contains(v) == has_ord(set.ords@, v as int));
                            }
                        }
                    }
                    return Ok(r);
                }
                let r = Self::build(
                    values,
                    skipper,
                    RangePredicate::SortedOrdinalSet { ords: set.ords },
                    (set.min, set.max),
                    ONE_VALUE_COST,
                    false,
                );
                Ok(r)
            },
        }
    }

    /// Confirms that some ordinal of a document is one of `ordinals`, which are in
    /// increasing order and less than `value_count`.
    ///
    /// # Errors
    ///
    /// [`LuceneError::IllegalArgument`] if there are ordinals but the number of
    /// ordinals is negative.
    pub fn for_sorted_set_ordinal_set<P: DocValuesSkipper<Blocks = K>>(
        values: V,
        skipper: Option<P>,
        ordinals: &[i64],
        value_count: i64,
    ) -> (r: Result<Self, LuceneError>)
        requires
            values.inv(),
            values.view().valid(),
            values.view().doc == -1,
            ascending(ordinals@),
            value_count <= usize::MAX,
            value_count >= 0 ==> forall|i: int|
                0 <= i < ordinals@.len() ==> 0 <= #[trigger] ordinals@[i] < value_count,
            skipper matches Some(skipper) ==> skipper.table() == values.view().table,
        ensures
            r is Err <==> ordinals@.len() > 0 && value_count < 0,
            r matches Err(e) ==> e.is_illegal_argument("the number of ordinals is negative"@),
            r matches Ok(it) ==> {
                &&& it.inv()
                &&& it.ids().doc == -1
                &&& forall|d: int| #[trigger]
                    it.hits().contains(d) <==> values.view().table.dom().contains(d)
                        && any_of(values.view().table[d], ordinals@)
                &&& if ordinals@.len() == 0 {
                    iterates_over_nothing(it)
                } else {
                    iterates_over(
                        it,
                        values,
                        skipper,
                        ordinals@[0],
                        ordinals@.last(),
                        is_contiguous(ordinals@),
                        MANY_VALUES_COST,
                    )
                }
            },
    {
        let ghost table = values.view().table;
        let ordinal_set = build_ordinal_set(ordinals, value_count)?;
        let ghost set = ordinal_set;
        let r = Self::for_sorted_set_ordinal_set_inner(values, skipper, ordinal_set);
        proof {
            if set is Some {
                lemma_contiguous(set->0, ordinals@);
            }
            assert forall|d: int| #[trigger] r.hits().contains(d) <==> table.dom().contains(d)
                && any_of(table[d], ordinals@) by {
                if set is Some {
                    let ords = set->0.ords@;
                    assert forall|k: int| 0 <= k < table[d].len() implies ordinals@.contains(
                        #[trigger] table[d][k],
                    ) == has_ord(ords, table[d][k] as int) by {
                        if has_ord(ords, table[d][k] as int) {
                            let i = choose|i: int|
                                0 <= i < ordinals@.len() && #[trigger] ordinals@[i] == table[d][k];
                            assert(ordinals@[i] == table[d][k]);
                        }
                    }
                    if any_of(table[d], ordinals@) {
                        let k = choose|k: int|
                            0 <= k < table[d].len() && ordinals@.contains(#[trigger] table[d][k]);
                        assert(has_ord(ords, table[d][k] as int));
                    }
                }
            }
        }
        Ok(r)
    }

    /// Confirms that some ordinal of a document is within `[min_ord, max_ord]` and
    /// in `ords`.
    pub fn for_ordinal_set_bits<P: DocValuesSkipper<Blocks = K>>(
        values: V,
        skipper: Option<P>,
        min_ord: i64,
        max_ord: i64,
        ords: Arc<FixedBitSet>,
    ) -> (r: Self)
        requires
            values.inv(),
            values.view().valid(),
            values.view().doc == -1,
            0 <= min_ord,
            max_ord < ords@.len(),
            skipper matches Some(skipper) ==> skipper.table() == values.view().table,
        ensures
            r.inv(),
            r.ids().doc == -1,
            forall|d: int| #[trigger]
                r.hits().contains(d) <==> values.view().table.dom().contains(d) && any_in_set(
                    values.view().table[d],
                    min_ord,
                    max_ord,
                    ords@,
                ),
            iterates_over(r, values, skipper, min_ord, max_ord, false, MANY_VALUES_COST),
    {
        Self::for_sorted_set_ordinal_set_inner(
            values,
            skipper,
            Some(OrdinalSet { min: min_ord, max: max_ord, ords, contiguous: false }),
        )
    }

    fn for_sorted_set_ordinal_set_inner<P: DocValuesSkipper<Blocks = K>>(
        values: V,
        skipper: Option<P>,
        ordinal_set: Option<OrdinalSet>,
    ) -> (r: Self)
        requires
            values.inv(),
            values.view().valid(),
            values.view().doc == -1,
            ordinal_set matches Some(set) ==> 0 <= set.min && set.max < set.ords@.len() && (
            set.contiguous ==> forall|o: int|
                set.min <= o <= set.max ==> has_ord(set.ords@, o)),
            skipper matches Some(skipper) ==> skipper.table() == values.view().table,
        ensures
            r.inv(),
            r.ids().doc == -1,
            forall|d: int| #[trigger]
                r.hits().contains(d) <==> values.view().table.dom().contains(d) && (
                ordinal_set matches Some(set) && any_in_set(
                    values.view().table[d],
                    set.min,
                    set.max,
                    set.ords@,
                )),
            ordinal_set is None ==> iterates_over_nothing(r),
            ordinal_set matches Some(set) ==> iterates_over(
                r,
                values,
                skipper,
                set.min,
                set.max,
                set.contiguous,
                MANY_VALUES_COST,
            ),
    {
        let ghost table = values.view().table;
        match ordinal_set {
            None => Self::empty(),
            Some(set) => {
                if set.disjoint(&skipper) {
                    proof {
                        assert forall|d: int| table.dom().contains(d) implies !#[trigger] any_in_set(
                            table[d],
                            set.min,
                            set.max,
                            set.ords@,
                        ) by {
                            assert forall|k: int| 0 <= k < table[d].len() implies !(set.min
                                <= #[trigger] table[d][k] <= set.max) by {
                            }
                        }
                    }
                    return Self::empty();
                }
                if set.contiguous {
                    let r = Self::for_sorted_set_ordinal_range(values, skipper, set.min, set.max);
                    proof {
                        assert forall|d: int| table.dom().contains(d) implies #[trigger] any_in_set(
                            table[d],
                            set.min,
                            set.max,
                            set.ords@,
                        ) == any_in_range(table[d], set.min, set.max) by {
                            if any_in_range(table[d], set.min, set.max) {
                                let k = choose|k: int|
                                    0 <= k < table[d].len() && set.min <= #[trigger] table[d][k]
                                        <= set.max;
                                assert(has_ord(set.ords@, table[d][k] as int));
                            }
                        }
                    }
                    return r;
                }
                Self::build(
                    values,
                    skipper,
                    RangePredicate::SortedSetOrdinalSet {
                        min: set.min,
                        max: set.max,
                        ords: set.ords,
                    },
                    (set.min, set.max),
                    MANY_VALUES_COST,
                    false,
                )
            },
        }
    }

    /// Returns an iterator that no document matches.
    pub fn empty() -> (r: Self)
        ensures
            r.inv(),
            r.ids() == (DocIds { docs: Set::empty(), doc: -1 }),
            r.hits() == Set::<int>::empty(),
            r.reported_match_cost() == 0,
            !r.decides_blocks(),
            !r.has_blocks(),
            r.infallible(),
    {
        let r = DocValuesRangeIterator {
            values: RangeValues::Empty(empty()),
            block_iterator: None,
            predicate: RangePredicate::Never,
            match_cost: 0,
            bulk: false,
            bulk_bounds: (0, 0),
        };
        assert(r.hits() =~= Set::<int>::empty());
        assert(r.ids() =~= (DocIds { docs: Set::empty(), doc: -1 }));
        r
    }
}

/// The state after a step: only the position has changed.
pub open spec fn same_matches<V: DocValues, K: SkipBlocks>(
    before: DocValuesRangeIterator<V, K>,
    after: DocValuesRangeIterator<V, K>,
) -> bool {
    &&& after.inv()
    &&& after.table() == before.table()
    &&& after.hits() == before.hits()
    &&& after.ids() == before.ids().at(after.ids().doc)
    &&& after.has_blocks() == before.has_blocks()
    &&& after.decides_blocks() == before.decides_blocks()
    &&& after.reported_match_cost() == before.reported_match_cost()
    &&& before.has_blocks() ==> after.blocks() == before.blocks().at(after.ids().doc)
}

impl<V: DocValues, K: SkipBlocks> DocValuesRangeIterator<V, K> {
    /// Returns the current document.
    pub fn doc_id(&self) -> (r: i32)
        requires
            self.inv(),
        ensures
            r == self.ids().doc,
            self.ids().valid(),
    {
        match &self.block_iterator {
            Some(blocks) => blocks.doc_id(),
            None => match &self.values {
                RangeValues::Present(values) => values.doc_id(),
                RangeValues::Empty(none) => none.doc_id(),
            },
        }
    }

    /// Moves to the first document of the iteration at or after `target`, and
    /// returns it.
    ///
    /// # Errors
    ///
    /// Whatever reading the blocks or the values fails with.
    pub fn advance(&mut self, target: i32) -> (r: Result<i32, LuceneError>)
        requires
            old(self).inv(),
            old(self).ids().doc < target,
        ensures
            old(self).infallible() ==> r is Ok,
            final(self).infallible() == old(self).infallible(),
            r matches Ok(d) ==> {
                &&& same_matches(*old(self), *final(self))
                &&& final(self).ids().doc == d
                &&& is_first_from(old(self).ids().docs, target as int, d as int)
            },
    {
        let d: i32 = match &mut self.block_iterator {
            Some(blocks) => blocks.advance(target)?,
            None => match &mut self.values {
                RangeValues::Present(values) => values.advance(target)?,
                RangeValues::Empty(none) => none.advance(target)?,
            },
        };
        proof {
            assert(self.table() == old(self).table());
            assert(self.hits() =~= old(self).hits());
            if self.has_blocks() {
                assert(d >= target);
            }
        }
        Ok(d)
    }

    /// Moves to the next document of the iteration, and returns it.
    ///
    /// # Errors
    ///
    /// Whatever reading the blocks or the values fails with.
    pub fn next_doc(&mut self) -> (r: Result<i32, LuceneError>)
        requires
            old(self).inv(),
            old(self).ids().doc < NO_MORE_DOCS,
        ensures
            old(self).infallible() ==> r is Ok,
            final(self).infallible() == old(self).infallible(),
            r matches Ok(d) ==> {
                &&& same_matches(*old(self), *final(self))
                &&& final(self).ids().doc == d
                &&& is_first_from(old(self).ids().docs, old(self).ids().doc + 1, d as int)
            },
    {
        let doc: i32 = self.doc_id();
        self.advance(doc + 1)
    }

    /// Moves the values to `target`, unless they are past it, and returns whether
    /// it has values.
    fn advance_disi(&mut self, target: i32) -> (r: Result<bool, LuceneError>)
        requires
            old(self).inv(),
            old(self).values is Present,
            0 <= target < NO_MORE_DOCS,
            unpassed(old(self).values->Present_0.view(), target as int),
        ensures
            old(self).infallible() ==> r is Ok,
            final(self).infallible() == old(self).infallible(),
            r matches Ok(b) ==> {
                &&& final(self).values is Present
                &&& final(self).values->Present_0.inv()
                &&& final(self).values->Present_0.view().valid()
                &&& final(self).values->Present_0.view() == old(self).values->Present_0.view().at(
                    final(self).values->Present_0.view().doc,
                )
                &&& final(self).block_iterator == old(self).block_iterator
                &&& final(self).predicate == old(self).predicate
                &&& final(self).match_cost == old(self).match_cost
                &&& final(self).bulk == old(self).bulk
                &&& final(self).bulk_bounds == old(self).bulk_bounds
                &&& unpassed(final(self).values->Present_0.view(), target as int)
                &&& b == old(self).table().dom().contains(target as int)
                &&& b ==> final(self).values->Present_0.view().doc == target
            },
    {
        let ghost view0 = self.values->Present_0.view();
        let d: i32 = match &mut self.values {
            RangeValues::Present(values) => {
                let doc: i32 = values.doc_id();
                if doc >= target {
                    doc
                } else {
                    values.advance(target)?
                }
            },
            RangeValues::Empty(_) => NO_MORE_DOCS,
        };
        proof {
            let view = self.values->Present_0.view();
            assert(view0.ids().valid());
            assert(view0.ids().docs == view0.table.dom());
            assert(view.table == view0.table);
            assert(d == view.doc);
            assert(view =~= view0.at(view.doc));
            if view0.table.dom().contains(target as int) {
                assert(target >= view.doc);
            }
        }
        Ok(d == target)
    }

    /// Confirms the values of the current document of the values.
    fn predicate(&mut self) -> (r: Result<bool, LuceneError>)
        requires
            old(self).values is Present,
            old(self).values->Present_0.inv(),
            old(self).values->Present_0.view().valid(),
            old(self).table().dom().contains(old(self).values->Present_0.view().doc),
            old(self).predicate.reads(
                old(self).table()[old(self).values->Present_0.view().doc],
            ),
        ensures
            old(self).infallible() ==> r is Ok,
            final(self).infallible() == old(self).infallible(),
            r matches Ok(b) ==> {
                &&& final(self).values is Present
                &&& final(self).values->Present_0.inv()
                &&& final(self).values->Present_0.view() == old(self).values->Present_0.view()
                &&& final(self).block_iterator == old(self).block_iterator
                &&& final(self).predicate == old(self).predicate
                &&& final(self).match_cost == old(self).match_cost
                &&& final(self).bulk == old(self).bulk
                &&& final(self).bulk_bounds == old(self).bulk_bounds
                &&& b == old(self).predicate.confirms(
                    old(self).table()[old(self).values->Present_0.view().doc],
                )
            },
    {
        match &mut self.values {
            RangeValues::Empty(_) => Ok(false),
            RangeValues::Present(values) => match &self.predicate {
                RangePredicate::Never => Ok(false),
                RangePredicate::NumericRange { min, max } => value_in_range(values, *min, *max),
                RangePredicate::SortedNumericRange { min, max } => first_value_in_range(
                    values,
                    *min,
                    *max,
                ),
                RangePredicate::OrdinalRange { min, max } => value_in_range(values, *min, *max),
                RangePredicate::SortedSetOrdinalRange { min, max } => first_value_in_range(
                    values,
                    *min,
                    *max,
                ),
                RangePredicate::SortedOrdinalSet { ords } => {
                    let num_ords: usize = ords.length();
                    let ord: i64 = values.value(0)?;
                    Ok(ords.get(ord as usize))
                },
                RangePredicate::SortedSetOrdinalSet { min, max, ords } => any_value_in_set(
                    values,
                    *min,
                    *max,
                    ords,
                ),
            },
        }
    }

    /// Decides whether the current document matches.
    ///
    /// # Errors
    ///
    /// Whatever reading the values fails with.
    pub fn matches(&mut self) -> (r: Result<bool, LuceneError>)
        requires
            old(self).inv(),
            old(self).ids().docs.contains(old(self).ids().doc),
        ensures
            old(self).infallible() ==> r is Ok,
            final(self).infallible() == old(self).infallible(),
            r matches Ok(b) ==> {
                &&& same_matches(*old(self), *final(self))
                &&& final(self).ids() == old(self).ids()
                &&& b == old(self).hits().contains(old(self).ids().doc)
            },
    {
        let ghost doc0 = self.ids().doc;
        let (doc, known) = match &self.block_iterator {
            None => {
                assert(self.values is Present);
                let r = self.predicate();
                proof {
                    if r is Ok {
                        lemma_step(*old(self), *self);
                    }
                }
                return r;
            },
            Some(blocks) => {
                let known: Match = if self.bulk {
                    blocks.get_match()
                } else {
                    Match::Maybe
                };
                (blocks.doc_id(), known)
            },
        };
        assert(self.values is Present);
        proof {
            if self.bulk {
                lemma_range_hits(*self);
            }
            assert(self.blocks().kinds[doc0] == self.blocks().kinds[self.ids().doc]);
        }
        match known {
            Match::Yes => {
                assert(docs_in_range(
                    self.table(),
                    self.bulk_bounds.0,
                    self.bulk_bounds.1,
                ).contains(doc0));
                Ok(true)
            },
            Match::YesIfPresent => {
                let r: bool = self.advance_disi(doc)?;
                proof {
                    lemma_step(*old(self), *self);
                }
                Ok(r)
            },
            Match::Maybe => {
                if !self.advance_disi(doc)? {
                    proof {
                        lemma_step(*old(self), *self);
                    }
                    return Ok(false);
                }
                let r: bool = self.predicate()?;
                proof {
                    lemma_step(*old(self), *self);
                }
                Ok(r)
            },
        }
    }

    /// Returns the cost of a confirmation.
    pub fn match_cost(&self) -> (r: i32)
        ensures
            r == self.reported_match_cost(),
    {
        self.match_cost
    }

    /// Returns the current document without blocks, the end of the run of the
    /// blocks where whole blocks are decided, and the document after the current
    /// one otherwise.
    ///
    /// # Errors
    ///
    /// Whatever reading the blocks fails with.
    pub fn doc_id_run_end(&self) -> (r: Result<i32, LuceneError>)
        requires
            self.inv(),
            self.ids().docs.contains(self.ids().doc),
        ensures
            self.infallible() ==> r is Ok,
            r matches Ok(end) ==> end == if !self.has_blocks() {
                self.ids().doc
            } else if self.decides_blocks() {
                self.blocks().run_ends[self.ids().doc]
            } else {
                self.ids().doc + 1
            },
    {
        match &self.block_iterator {
            None => Ok(self.doc_id()),
            Some(blocks) => {
                if self.bulk {
                    blocks.doc_id_run_end()
                } else {
                    Ok(blocks.doc_id() + 1)
                }
            },
        }
    }
}

/// Loads the documents of `[start, end)` that have values.
fn load_present<V: DocValues>(
    values: &mut V,
    start: i32,
    end: i32,
    bit_set: &mut FixedBitSet,
    offset: i32,
) -> (r: Result<(), LuceneError>)
    requires
        old(values).inv(),
        old(values).view().valid(),
        0 <= start < end,
        unpassed(old(values).view(), start as int),
        forall|d: int| #[trigger]
            old(values).view().table.dom().contains(d) && start <= d < end ==> 0 <= d - offset
                < old(bit_set)@.len() && d - offset <= i32::MAX,
    ensures
        old(values).infallible() ==> r is Ok,
        final(values).infallible() == old(values).infallible(),
        final(bit_set)@.len() == old(bit_set)@.len(),
        r is Ok ==> {
            &&& final(values).inv()
            &&& final(values).view().valid()
            &&& final(values).view() == old(values).view().at(final(values).view().doc)
            &&& unpassed(final(values).view(), end as int)
            &&& final(bit_set)@ == loaded_bits(
                old(bit_set)@,
                old(values).view().table.dom(),
                start as int,
                end as int,
                offset as int,
            )
        },
{
    let ghost view0 = values.view();
    let ghost docs = view0.table.dom();
    proof {
        assert(view0.ids().valid());
        assert(view0.ids().docs == docs);
    }
    if values.doc_id() < start {
        values.advance(start)?;
    }
    let ghost view1 = values.view();
    proof {
        assert(view1.table == view0.table);
        assert(view1.doc >= start);
    }
    values.into_bit_set(end, bit_set, offset)?;
    proof {
        assert(bit_set@ =~= loaded_bits(
            old(bit_set)@,
            docs,
            start as int,
            end as int,
            offset as int,
        ));
    }
    Ok(())
}

impl<V: DocValues, K: SkipBlocks> DocValuesRangeIterator<V, K> {
    /// Loads the documents of `[block_start, block_end)` that match, confirming
    /// them one by one.
    fn into_maybe_block(
        &mut self,
        block_start: i32,
        block_end: i32,
        bit_set: &mut FixedBitSet,
        offset: i32,
    ) -> (r: Result<(), LuceneError>)
        requires
            old(self).values is Present,
            old(self).values->Present_0.inv(),
            old(self).values->Present_0.view().valid(),
            forall|d: int| #[trigger]
                old(self).table().dom().contains(d) ==> old(self).predicate.reads(
                    old(self).table()[d],
                ),
            0 <= block_start < block_end,
            unpassed(old(self).values->Present_0.view(), block_start as int),
            forall|d: int| #[trigger]
                old(self).hits().contains(d) && block_start <= d < block_end ==> 0 <= d - offset
                    < old(bit_set)@.len() && d - offset <= i32::MAX,
        ensures
            old(self).infallible() ==> r is Ok,
            final(self).infallible() == old(self).infallible(),
            final(bit_set)@.len() == old(bit_set)@.len(),
            r is Ok ==> {
                &&& final(self).values is Present
                &&& final(self).values->Present_0.inv()
                &&& final(self).values->Present_0.view().valid()
                &&& final(self).values->Present_0.view() == old(self).values->Present_0.view().at(
                    final(self).values->Present_0.view().doc,
                )
                &&& final(self).block_iterator == old(self).block_iterator
                &&& final(self).predicate == old(self).predicate
                &&& final(self).match_cost == old(self).match_cost
                &&& final(self).bulk == old(self).bulk
                &&& final(self).bulk_bounds == old(self).bulk_bounds
                &&& unpassed(final(self).values->Present_0.view(), block_end as int)
                &&& final(bit_set)@ == loaded_bits(
                    old(bit_set)@,
                    old(self).hits(),
                    block_start as int,
                    block_end as int,
                    offset as int,
                )
            },
    {
        let ghost view0 = self.values->Present_0.view();
        let ghost docs = view0.table.dom();
        let ghost hits = self.hits();
        proof {
            assert(view0.ids().valid());
            assert(view0.ids().docs == docs);
        }
        let mut doc: i32 = match &mut self.values {
            RangeValues::Present(values) => {
                let doc: i32 = values.doc_id();
                if doc < block_start {
                    values.advance(block_start)?
                } else {
                    doc
                }
            },
            RangeValues::Empty(_) => NO_MORE_DOCS,
        };
        proof {
            assert(self.values->Present_0.view() =~= view0.at(doc as int));
            let end = if doc <= block_end {
                doc as int
            } else {
                block_end as int
            };
            assert forall|i: int| 0 <= i < bit_set@.len() implies bit_set@[i]
                == #[trigger] loaded_bits(
                old(bit_set)@,
                hits,
                block_start as int,
                end,
                offset as int,
            )[i] by {
                let d = i + offset;
                if hits.contains(d) && block_start <= d {
                    assert(docs.contains(d));
                }
            }
            assert(bit_set@ =~= loaded_bits(
                old(bit_set)@,
                hits,
                block_start as int,
                end,
                offset as int,
            ));
        }
        while doc < block_end
            invariant
                view0 == old(self).values->Present_0.view(),
                view0.ids().valid(),
                docs == view0.table.dom(),
                docs == view0.ids().docs,
                hits == old(self).hits(),
                old(self).values is Present,
                self.values is Present,
                self.values->Present_0.inv(),
                self.values->Present_0.view().valid(),
                self.values->Present_0.view() == view0.at(doc as int),
                self.infallible() == old(self).infallible(),
                self.block_iterator == old(self).block_iterator,
                self.predicate == old(self).predicate,
                self.match_cost == old(self).match_cost,
                self.bulk == old(self).bulk,
                self.bulk_bounds == old(self).bulk_bounds,
                forall|d: int| #[trigger]
                    docs.contains(d) ==> self.predicate.reads(view0.table[d]),
                0 <= block_start < block_end,
                block_start <= doc,
                unpassed(self.values->Present_0.view(), block_end as int),
                forall|d: int| #[trigger]
                    hits.contains(d) && block_start <= d < block_end ==> 0 <= d - offset
                        < bit_set@.len() && d - offset <= i32::MAX,
                bit_set@.len() == old(bit_set)@.len(),
                bit_set@ == loaded_bits(
                    old(bit_set)@,
                    hits,
                    block_start as int,
                    (if doc <= block_end { doc as int } else { block_end as int }),
                    offset as int,
                ),
            decreases NO_MORE_DOCS - doc,
        {
            let ghost was = doc as int;
            assert(self.values->Present_0.view().ids().valid());
            assert(docs.contains(was));
            assert(self.table() == view0.table);
            let matched: bool = self.predicate()?;
            assert(matched == hits.contains(was));
            if matched {
                bit_set.set((doc - offset) as usize);
            }
            doc = match &mut self.values {
                RangeValues::Present(values) => values.next_doc()?,
                RangeValues::Empty(_) => NO_MORE_DOCS,
            };
            proof {
                assert(self.values->Present_0.view() =~= view0.at(doc as int));
                let end = if doc <= block_end {
                    doc as int
                } else {
                    block_end as int
                };
                assert forall|i: int| 0 <= i < bit_set@.len() implies bit_set@[i]
                    == #[trigger] loaded_bits(
                    old(bit_set)@,
                    hits,
                    block_start as int,
                    end,
                    offset as int,
                )[i] by {
                    let d = i + offset;
                    if hits.contains(d) {
                        assert(docs.contains(d));
                    }
                }
                assert(bit_set@ =~= loaded_bits(
                    old(bit_set)@,
                    hits,
                    block_start as int,
                    end,
                    offset as int,
                ));
            }
        }
        Ok(())
    }

    /// Loads the documents that match, from the current one up to `up_to`
    /// (exclusive), into `bit_set`, shifted down by `offset`, and moves to the
    /// first document at or after `up_to`.
    ///
    /// # Errors
    ///
    /// Whatever reading the blocks or the values fails with.
    pub fn into_bit_set(&mut self, up_to: i32, bit_set: &mut FixedBitSet, offset: i32) -> (r:
        Result<(), LuceneError>)
        requires
            old(self).inv(),
            old(self).ids().doc >= 0,
            forall|d: int| #[trigger]
                old(self).hits().contains(d) && old(self).ids().doc <= d < up_to ==> 0 <= d - offset
                    < old(bit_set)@.len() && d - offset <= i32::MAX,
        ensures
            old(self).infallible() ==> r is Ok,
            final(self).infallible() == old(self).infallible(),
            final(bit_set)@.len() == old(bit_set)@.len(),
            r is Ok ==> {
                &&& same_matches(*old(self), *final(self))
                &&& is_first_from(
                    old(self).ids().docs,
                    (if up_to >= old(self).ids().doc {
                        up_to as int
                    } else {
                        old(self).ids().doc
                    }),
                    final(self).ids().doc,
                )
                &&& final(bit_set)@ == loaded_bits(
                    old(bit_set)@,
                    old(self).hits(),
                    old(self).ids().doc,
                    up_to as int,
                    offset as int,
                )
            },
    {
        let ghost hits = self.hits();
        let ghost docs = self.ids().docs;
        let ghost from = self.ids().doc;
        let ghost limit = if up_to >= from {
            up_to as int
        } else {
            from
        };
        let mut doc: i32 = self.doc_id();
        proof {
            assert(bit_set@ =~= loaded_bits(
                old(bit_set)@,
                hits,
                from,
                (if doc <= up_to { doc as int } else { up_to as int }),
                offset as int,
            ));
        }
        while doc < up_to
            invariant
                same_matches(*old(self), *self),
                self.infallible() == old(self).infallible(),
                self.ids().valid(),
                hits == old(self).hits(),
                docs == old(self).ids().docs,
                from == old(self).ids().doc,
                from >= 0,
                limit == if up_to >= from {
                    up_to as int
                } else {
                    from
                },
                doc == self.ids().doc,
                doc >= from,
                is_first_from(docs, doc as int, doc as int),
                doc >= up_to ==> is_first_from(docs, limit, doc as int),
                forall|d: int| #[trigger]
                    hits.contains(d) && from <= d < up_to ==> 0 <= d - offset < bit_set@.len() && d
                        - offset <= i32::MAX,
                forall|d: int| #[trigger] hits.contains(d) ==> docs.contains(d),
                bit_set@.len() == old(bit_set)@.len(),
                bit_set@ == loaded_bits(
                    old(bit_set)@,
                    hits,
                    from,
                    (if doc <= up_to { doc as int } else { up_to as int }),
                    offset as int,
                ),
            decreases NO_MORE_DOCS - doc,
        {
            let ghost was = doc as int;
            let ghost bits0 = bit_set@;
            assert(docs.contains(was));
            let next: i32;
            if !self.bulk {
                let matched: bool = self.matches()?;
                if matched {
                    bit_set.set((doc - offset) as usize);
                }
                next = doc + 1;
                assert(bit_set@ =~= loaded_bits(bits0, hits, was, next as int, offset as int));
                doc = self.advance(next)?;
            } else {
                let (end, following) = self.load_block(doc, up_to, bit_set, offset)?;
                next = end;
                doc = following;
            }
            proof {
                let end = if doc <= up_to {
                    doc as int
                } else {
                    up_to as int
                };
                assert forall|i: int| 0 <= i < bit_set@.len() implies bit_set@[i]
                    == #[trigger] loaded_bits(old(bit_set)@, hits, from, end, offset as int)[i] by {
                    let d = i + offset;
                    assert(bit_set@[i] == loaded_bits(
                        bits0,
                        hits,
                        was,
                        next as int,
                        offset as int,
                    )[i]);
                    if hits.contains(d) {
                        assert(docs.contains(d));
                    }
                }
                assert(bit_set@ =~= loaded_bits(
                    old(bit_set)@,
                    hits,
                    from,
                    end,
                    offset as int,
                ));
            }
        }
        Ok(())
    }

    /// Loads the documents that match from `block_start` to the end of what is
    /// known of it, at most `up_to`, moves to the first document at or after that
    /// end, and returns both.
    fn load_block(
        &mut self,
        block_start: i32,
        up_to: i32,
        bit_set: &mut FixedBitSet,
        offset: i32,
    ) -> (r: Result<(i32, i32), LuceneError>)
        requires
            old(self).inv(),
            old(self).bulk,
            block_start == old(self).ids().doc,
            old(self).ids().docs.contains(block_start as int),
            block_start < up_to,
            forall|d: int| #[trigger]
                old(self).hits().contains(d) && block_start <= d < up_to ==> 0 <= d - offset < old(
                    bit_set,
                )@.len() && d - offset <= i32::MAX,
        ensures
            old(self).infallible() ==> r is Ok,
            final(self).infallible() == old(self).infallible(),
            final(bit_set)@.len() == old(bit_set)@.len(),
            r matches Ok((end, doc)) ==> {
                &&& same_matches(*old(self), *final(self))
                &&& final(self).ids().doc == doc
                &&& block_start < end <= up_to
                &&& is_first_from(old(self).ids().docs, end as int, doc as int)
                &&& final(bit_set)@ == loaded_bits(
                    old(bit_set)@,
                    old(self).hits(),
                    block_start as int,
                    end as int,
                    offset as int,
                )
            },
    {
        let ghost hits = self.hits();
        proof {
            lemma_range_hits(*self);
        }
        let (known, end) = match &self.block_iterator {
            None => (Match::Maybe, up_to),
            Some(blocks) => {
                let known: Match = blocks.get_match();
                let end: i32 = match known {
                    Match::Maybe => blocks.block_end(),
                    _ => blocks.doc_id_run_end()?,
                };
                (known, end)
            },
        };
        let block_end: i32 = if up_to < end {
            up_to
        } else {
            end
        };
        assert(self.blocks().valid());
        assert(block_start < block_end);
        assert(self.values is Present);
        assert(self.blocks().kinds[block_start as int] == known);
        match known {
            Match::Yes => {
                assert(hits.contains(block_start as int));
                assert(hits.contains(block_end - 1));
                bit_set.set_range(
                    (block_start - offset) as usize,
                    (block_end - 1 - offset) as usize + 1,
                );
                assert(bit_set@ =~= loaded_bits(
                    old(bit_set)@,
                    hits,
                    block_start as int,
                    block_end as int,
                    offset as int,
                ));
            },
            Match::YesIfPresent => {
                let ghost table = self.table();
                assert forall|d: int| #[trigger]
                    table.dom().contains(d) && block_start <= d < block_end implies hits.contains(
                    d,
                ) by {
                }
                match &mut self.values {
                    RangeValues::Present(values) => {
                        load_present(values, block_start, block_end, bit_set, offset)?;
                    },
                    RangeValues::Empty(_) => {},
                }
                proof {
                    assert forall|i: int| 0 <= i < bit_set@.len() implies bit_set@[i]
                        == #[trigger] loaded_bits(
                        old(bit_set)@,
                        hits,
                        block_start as int,
                        block_end as int,
                        offset as int,
                    )[i] by {
                        let d = i + offset;
                        if hits.contains(d) {
                            assert(table.dom().contains(d));
                        }
                    }
                    assert(bit_set@ =~= loaded_bits(
                        old(bit_set)@,
                        hits,
                        block_start as int,
                        block_end as int,
                        offset as int,
                    ));
                }
            },
            Match::Maybe => {
                self.into_maybe_block(block_start, block_end, bit_set, offset)?;
            },
        }
        let doc: i32 = match &mut self.block_iterator {
            Some(blocks) => blocks.advance(block_end)?,
            None => NO_MORE_DOCS,
        };
        proof {
            assert(self.table() == old(self).table());
            assert(self.hits() =~= old(self).hits());
        }
        Ok((block_end, doc))
    }
}

/// Where whole blocks are decided, the matches are those of the range.
proof fn lemma_range_hits<V: DocValues, K: SkipBlocks>(a: DocValuesRangeIterator<V, K>)
    requires
        a.predicate.is_range(a.bulk_bounds),
    ensures
        a.hits() == docs_in_range(a.table(), a.bulk_bounds.0, a.bulk_bounds.1),
{
    assert(a.hits() =~= docs_in_range(a.table(), a.bulk_bounds.0, a.bulk_bounds.1));
}

/// Moving the values without passing the current document keeps the state.
proof fn lemma_step<V: DocValues, K: SkipBlocks>(
    a: DocValuesRangeIterator<V, K>,
    b: DocValuesRangeIterator<V, K>,
)
    requires
        a.inv(),
        a.values is Present,
        b.values is Present,
        b.values->Present_0.inv(),
        b.values->Present_0.view().valid(),
        b.values->Present_0.view() == a.values->Present_0.view().at(
            b.values->Present_0.view().doc,
        ),
        b.block_iterator == a.block_iterator,
        b.predicate == a.predicate,
        b.match_cost == a.match_cost,
        b.bulk == a.bulk,
        b.bulk_bounds == a.bulk_bounds,
        a.block_iterator is Some ==> unpassed(b.values->Present_0.view(), a.ids().doc),
        a.block_iterator is None ==> b.values->Present_0.view().doc
            == a.values->Present_0.view().doc,
    ensures
        same_matches(a, b),
        b.ids() == a.ids(),
{
    assert(a.table() == b.table());
    assert(a.hits() =~= b.hits());
}

/// Some value is one of `wanted`.
pub open spec fn any_of(values: Seq<i64>, wanted: Seq<i64>) -> bool {
    exists|k: int| 0 <= k < values.len() && wanted.contains(#[trigger] values[k])
}

impl<V: DocValues, K: SkipBlocks> DocValuesRangeIterator<V, K> {
    /// A document matches a range of numbers exactly when a value of it is in the range, the ends
    /// included.
    pub proof fn number_ranges_are_exact<P: DocValuesSkipper<Blocks = K>>(
        values: V,
        skipper: Option<P>,
        min: i64,
        max: i64,
        r: Self,
        d: int,
    )
        requires
            call_ensures(
                DocValuesRangeIterator::<V, K>::for_range::<P>,
                (values, skipper, min, max),
                r,
            ),
        ensures
            r.hits().contains(d) <==> values.view().table.dom().contains(d) && exists|k: int|
                0 <= k < values.view().table[d].len() && min
                    <= #[trigger] values.view().table[d][k] <= max,
    {
    }

    /// A document with several numbers matches a range exactly when one of them is in the range, the
    /// ends included.
    pub proof fn sorted_number_ranges_are_exact<P: DocValuesSkipper<Blocks = K>>(
        values: V,
        skipper: Option<P>,
        min: i64,
        max: i64,
        r: Self,
        d: int,
    )
        requires
            call_ensures(
                DocValuesRangeIterator::<V, K>::for_sorted_numeric_range::<P>,
                (values, skipper, min, max),
                r,
            ),
        ensures
            r.hits().contains(d) <==> values.view().table.dom().contains(d) && exists|k: int|
                0 <= k < values.view().table[d].len() && min
                    <= #[trigger] values.view().table[d][k] <= max,
    {
    }

    /// A document matches a range of ordinals exactly when its ordinal is in the range, the ends
    /// included.
    pub proof fn ordinal_ranges_are_exact<P: DocValuesSkipper<Blocks = K>>(
        values: V,
        skipper: Option<P>,
        min: i64,
        max: i64,
        r: Self,
        d: int,
    )
        requires
            call_ensures(
                DocValuesRangeIterator::<V, K>::for_ordinal_range::<P>,
                (values, skipper, min, max),
                r,
            ),
        ensures
            r.hits().contains(d) <==> values.view().table.dom().contains(d) && exists|k: int|
                0 <= k < values.view().table[d].len() && min
                    <= #[trigger] values.view().table[d][k] <= max,
    {
    }

    /// A document with several ordinals matches a range exactly when one of them is in the range,
    /// the ends included.
    pub proof fn sorted_ordinal_ranges_are_exact<P: DocValuesSkipper<Blocks = K>>(
        values: V,
        skipper: Option<P>,
        min: i64,
        max: i64,
        r: Self,
        d: int,
    )
        requires
            call_ensures(
                DocValuesRangeIterator::<V, K>::for_sorted_set_ordinal_range::<P>,
                (values, skipper, min, max),
                r,
            ),
        ensures
            r.hits().contains(d) <==> values.view().table.dom().contains(d) && exists|k: int|
                0 <= k < values.view().table[d].len() && min
                    <= #[trigger] values.view().table[d][k] <= max,
    {
    }

    /// A document matches a set of ordinals exactly when its ordinal is one of them.
    pub proof fn ordinal_sets_are_exact<P: DocValuesSkipper<Blocks = K>>(
        values: V,
        skipper: Option<P>,
        ordinals: &[i64],
        value_count: i64,
        r: Self,
        d: int,
    )
        requires
            call_ensures(
                DocValuesRangeIterator::<V, K>::for_ordinal_set::<P>,
                (values, skipper, ordinals, value_count),
                Ok(r),
            ),
        ensures
            r.hits().contains(d) <==> values.view().table.dom().contains(d) && exists|i: int|
                0 <= i < ordinals@.len() && #[trigger] ordinals@[i]
                    == values.view().table[d][0],
    {
        assert(ordinals@.contains(values.view().table[d][0]) <==> exists|i: int|
            0 <= i < ordinals@.len() && #[trigger] ordinals@[i] == values.view().table[d][0]);
    }

    /// A document with several ordinals matches a set of ordinals exactly when one of its ordinals
    /// is one of them.
    pub proof fn sorted_ordinal_sets_are_exact<P: DocValuesSkipper<Blocks = K>>(
        values: V,
        skipper: Option<P>,
        ordinals: &[i64],
        value_count: i64,
        r: Self,
        d: int,
    )
        requires
            call_ensures(
                DocValuesRangeIterator::<V, K>::for_sorted_set_ordinal_set::<P>,
                (values, skipper, ordinals, value_count),
                Ok(r),
            ),
        ensures
            r.hits().contains(d) <==> values.view().table.dom().contains(d) && exists|k: int, i: int|
                0 <= k < values.view().table[d].len() && 0 <= i < ordinals@.len()
                    && #[trigger] values.view().table[d][k] == #[trigger] ordinals@[i],
    {
        let own = values.view().table[d];
        if any_of(own, ordinals@) {
            let k = choose|k: int| 0 <= k < own.len() && ordinals@.contains(#[trigger] own[k]);
            let i = choose|i: int| 0 <= i < ordinals@.len() && ordinals@[i] == own[k];
            assert(own[k] == ordinals@[i]);
        }
        if exists|k: int, i: int|
            0 <= k < own.len() && 0 <= i < ordinals@.len() && #[trigger] own[k]
                == #[trigger] ordinals@[i] {
            let (k, i) = choose|k: int, i: int|
                0 <= k < own.len() && 0 <= i < ordinals@.len() && #[trigger] own[k]
                    == #[trigger] ordinals@[i];
            assert(ordinals@.contains(own[k]));
        }
    }
}

} // verus!
