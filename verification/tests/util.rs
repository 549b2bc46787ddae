use rucene::error::LuceneError;
use rucene::search::disjunction_max_query::FULL_TIE_BREAKER;
use rucene::search::doc_values_range_iterator::{MANY_VALUES_COST, ONE_VALUE_COST};
use rucene::search::field_comparator::{java_double_compare, java_float_compare};
use rucene::search::field_value_hit_queue::NO_SCORE;
use rucene::search::hit_queue::WORST_SCORE;
use rucene::search::impacts_disi::GREATEST_SCORE;
use rucene::search::index_searcher::UNIT_BOOST;
use rucene::util::bits::{Bits, MatchAllBits};
use rucene::util::bytes::{compare_bytes, copy_of};
use rucene::util::fixed_bit_set::FixedBitSet;
use rucene::util::math::unsigned_min;
use rucene::util::number_keys::{
    double_bits, double_key, java_math_max, single_bits, single_key,
};
use rucene::util::positions::positions;
use rucene::util::priority_queue::PriorityQueue;
use rucene::util::slots::SlotOrder;
use rucene::util::sort::{descending, reordered, stable_order};
use rucene::util::text::{append_signed, append_unsigned, same_text, with_number, with_two_numbers};

#[test]
fn match_all_bits_are_all_set() {
    let bits = MatchAllBits::new(3);
    assert_eq!(bits.length(), 3);
    assert!(bits.get(0) && bits.get(2));
}

#[test]
fn fixed_bit_set_sets_clears_and_counts() {
    let mut bits = FixedBitSet::new(130);
    bits.set(0);
    bits.set(63);
    bits.set(64);
    bits.set(129);
    assert_eq!(bits.cardinality(), 4);
    assert_eq!(bits.next_set_bit(1), Some(63));
    assert_eq!(bits.next_set_bit(65), Some(129));
    bits.clear(129);
    assert_eq!(bits.next_set_bit(65), None);
    bits.set_range(60, 70);
    assert_eq!(bits.cardinality(), 11);
    let mut other = FixedBitSet::new(130);
    other.set_range(65, 130);
    bits.and_in_place(&other);
    assert_eq!(bits.cardinality(), 5);
    assert!(!bits.get(64) && bits.get(65) && bits.get(69) && !bits.get(70));
    let kept = bits.clone();
    bits.clear_all();
    assert_eq!(bits.cardinality(), 0);
    assert_eq!(kept.cardinality(), 5);
    assert_eq!(kept.length(), 130);
}

#[test]
fn bytes_are_compared_as_unsigned() {
    assert_eq!(compare_bytes(&[1, 2], &[1, 2]), 0);
    assert_eq!(compare_bytes(&[1], &[1, 0]), -1);
    assert_eq!(compare_bytes(&[0x80], &[0x7f]), 1);
    assert_eq!(compare_bytes(&[], &[0]), -1);
    assert_eq!(copy_of(&[3, 4]), vec![3, 4]);
}

#[test]
fn unsigned_min_takes_negative_numbers_for_large_ones() {
    assert_eq!(unsigned_min(-1, 5), 5);
    assert_eq!(unsigned_min(3, 5), 3);
    assert_eq!(unsigned_min(-1, -2), -2);
}

#[test]
fn positions_are_consecutive() {
    assert_eq!(positions(2, 5), vec![2, 3, 4]);
    assert!(positions(3, 3).is_empty());
}

struct Least;

impl SlotOrder<u32> for Least {
    fn before(_a: u32, _b: u32) -> bool {
        unreachable!()
    }

    fn comparable(_a: u32) -> bool {
        unreachable!()
    }

    fn infallible(_a: u32) -> bool {
        unreachable!()
    }

    fn comes_before(a: &u32, b: &u32) -> Result<bool, LuceneError> {
        Ok(a < b)
    }
}

#[test]
fn queue_keeps_the_greatest_items() {
    let mut queue: PriorityQueue<u32, Least> = PriorityQueue::new(3);
    for item in [5, 1, 4] {
        assert_eq!(queue.insert_with_overflow(item), None);
    }
    assert_eq!(queue.insert_with_overflow(9), Some(1));
    assert_eq!(queue.insert_with_overflow(2), Some(2));
    assert_eq!(queue.top(), Some(&4));
    let mut copy = queue.duplicate();
    assert_eq!(queue.update_top_with(7), 4);
    assert_eq!(queue.size(), 3);
    let mut left = vec![];
    while let Some(item) = queue.pop() {
        left.push(item);
    }
    assert_eq!(left, vec![5, 7, 9]);
    assert_eq!(copy.pop(), Some(4));
    copy.clear();
    assert_eq!(copy.pop(), None);
    copy.add(8);
    assert_eq!(*copy.item_at(0), 8);
}

#[test]
fn equal_keys_keep_their_order() {
    let order = stable_order(&[(2, 0), (1, 5), (2, 0), (1, 4)]);
    assert_eq!(order, vec![3, 1, 0, 2]);
    assert_eq!(reordered(vec!["a", "b", "c", "d"], &order), vec!["d", "b", "a", "c"]);
    assert_eq!(descending(0), -1);
    assert_eq!(descending(i64::MIN), i64::MAX);
}

#[test]
fn numbers_are_rendered_in_decimal() {
    let mut out = String::new();
    append_unsigned(&mut out, u64::MAX);
    out.push(' ');
    append_signed(&mut out, i64::MIN);
    out.push(' ');
    append_signed(&mut out, 0);
    assert_eq!(out, "18446744073709551615 -9223372036854775808 0");
    assert_eq!(with_number("n=", -7), "n=-7");
    assert_eq!(with_two_numbers("[", 1, "..", 20), "[1..20");
    assert!(same_text("ab", "ab"));
    assert!(!same_text("ab", "abc"));
}

#[test]
fn keys_are_ordered_like_numbers() {
    let numbers = [
        f32::NEG_INFINITY,
        -2.5,
        -f32::MIN_POSITIVE,
        -0.0,
        0.0,
        f32::MIN_POSITIVE,
        1.0,
        2.5,
        f32::INFINITY,
        f32::NAN,
    ];
    for (i, a) in numbers.iter().enumerate() {
        for (j, b) in numbers.iter().enumerate() {
            let (x, y) = (a.to_bits(), b.to_bits());
            assert_eq!(java_float_compare(x, y), if i < j { -1 } else { (i > j) as i32 });
            assert_eq!(java_math_max(x, y), if i < j { y } else { x });
            let (x, y) = ((*a as f64).to_bits(), (*b as f64).to_bits());
            assert_eq!(java_double_compare(x, y), if i < j { -1 } else { (i > j) as i32 });
        }
        if !a.is_nan() {
            assert_eq!(single_bits(single_key(a.to_bits())), a.to_bits());
            let wide = (*a as f64).to_bits();
            assert_eq!(double_bits(double_key(wide)), wide);
        }
    }
    assert_eq!(single_key(1.0f32.to_bits()), UNIT_BOOST);
    assert_eq!(single_key((-f32::NAN).to_bits()), NO_SCORE);
    assert_eq!(single_key(f32::NEG_INFINITY.to_bits()), WORST_SCORE);
    assert_eq!(single_key(f32::MAX.to_bits()), GREATEST_SCORE);
    assert_eq!(single_key(1.0f32.to_bits()), FULL_TIE_BREAKER);
    assert_eq!(single_key(2.0f32.to_bits()), ONE_VALUE_COST);
    assert_eq!(single_key(5.0f32.to_bits()), MANY_VALUES_COST);
    assert_eq!(java_math_max(f32::NAN.to_bits(), 1.0f32.to_bits()), f32::NAN.to_bits());
}
