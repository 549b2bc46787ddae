use rucene::error::LuceneError;
use rucene::search::doc_id_set_iterator::{
    all, empty, from_iterator_supplier, from_live_docs, range, AcceptDocs, DocIdSetIterator,
    DocIds, NO_MORE_DOCS,
};
use rucene::util::bits::Bits;
use rucene::util::fixed_bit_set::FixedBitSet;
use rucene::util::models::Sequence;

/// Sparse iterator backed by a sorted list of doc IDs.
struct VecDocIdSetIterator {
    docs: Vec<i32>,
    idx: i32,
}

impl VecDocIdSetIterator {
    fn new(docs: Vec<i32>) -> Self {
        Self { docs, idx: -1 }
    }
}

impl DocIdSetIterator for VecDocIdSetIterator {
    fn view(&self) -> DocIds {
        unreachable!()
    }

    fn inv(&self) -> bool {
        unreachable!()
    }

    fn infallible(&self) -> bool {
        unreachable!()
    }

    fn reported_cost(&self) -> i64 {
        unreachable!()
    }

    fn doc_id(&self) -> i32 {
        if self.idx < 0 {
            -1
        } else if self.idx as usize >= self.docs.len() {
            NO_MORE_DOCS
        } else {
            self.docs[self.idx as usize]
        }
    }

    fn next_doc(&mut self) -> Result<i32, LuceneError> {
        self.idx += 1;
        if self.idx as usize >= self.docs.len() {
            Ok(NO_MORE_DOCS)
        } else {
            Ok(self.docs[self.idx as usize])
        }
    }

    fn advance(&mut self, target: i32) -> Result<i32, LuceneError> {
        let start = (self.idx + 1).max(0) as usize;
        match self.docs[start..].iter().position(|&d| d >= target) {
            Some(p) => {
                self.idx = (start + p) as i32;
                Ok(self.docs[start + p])
            }
            None => {
                self.idx = self.docs.len() as i32;
                Ok(NO_MORE_DOCS)
            }
        }
    }

    fn cost(&self) -> i64 {
        self.docs.len() as i64
    }
}

/// Bits implementation accepting only even doc IDs.
struct EvenBits {
    max_doc: i32,
}

impl Bits for EvenBits {
    fn bit_seq(&self) -> Sequence<bool> {
        unreachable!()
    }

    fn get(&self, index: usize) -> bool {
        index % 2 == 0
    }

    fn length(&self) -> usize {
        self.max_doc as usize
    }
}

#[test]
fn empty_iterator_is_immediately_exhausted() {
    let mut it = empty();
    assert_eq!(it.doc_id(), -1);
    assert_eq!(it.next_doc().unwrap(), NO_MORE_DOCS);
    assert_eq!(it.doc_id(), NO_MORE_DOCS);
    assert_eq!(it.cost(), 0);
}

#[test]
fn all_iterator_visits_every_doc() {
    let mut it = all(5).unwrap();
    assert_eq!(it.doc_id(), -1);
    for expected in 0..5 {
        assert_eq!(it.next_doc().unwrap(), expected);
    }
    assert_eq!(it.next_doc().unwrap(), NO_MORE_DOCS);
    assert_eq!(it.cost(), 5);
}

#[test]
fn range_iterator_visits_subrange() {
    let mut it = range(2, 7).unwrap();
    for expected in 2..7 {
        assert_eq!(it.next_doc().unwrap(), expected);
    }
    assert_eq!(it.next_doc().unwrap(), NO_MORE_DOCS);
    assert_eq!(it.cost(), 5);
}

#[test]
fn range_advance_matches_java_semantics() {
    let mut it = range(2, 10).unwrap();
    assert_eq!(it.advance(5).unwrap(), 5);
    assert_eq!(it.advance(6).unwrap(), 6);
    assert_eq!(it.advance(9).unwrap(), 9);
    assert_eq!(it.advance(10).unwrap(), NO_MORE_DOCS);
}

#[test]
fn advance_before_min_positions_at_min() {
    let mut it = range(3, 8).unwrap();
    assert_eq!(it.advance(0).unwrap(), 3);
}

#[test]
fn sparse_advance_jumps_to_target() {
    let mut it = VecDocIdSetIterator::new(vec![1, 5, 10, 20]);
    assert_eq!(it.advance(6).unwrap(), 10);
    assert_eq!(it.advance(20).unwrap(), 20);
    assert_eq!(it.advance(21).unwrap(), NO_MORE_DOCS);
}

#[test]
fn slow_advance_default_matches_next_doc_loop() {
    let mut it = VecDocIdSetIterator::new(vec![2, 5, 8]);
    assert_eq!(it.next_doc().unwrap(), 2);
    assert_eq!(it.slow_advance(6).unwrap(), 8);
}

#[test]
fn into_bit_set_loads_matching_docs() {
    let mut it = VecDocIdSetIterator::new(vec![0, 3, 4, 7]);
    let mut bit_set = FixedBitSet::new(10);
    it.into_bit_set(10, &mut bit_set, 0).unwrap();
    assert!(bit_set.get(0));
    assert!(!bit_set.get(1));
    assert!(!bit_set.get(2));
    assert!(bit_set.get(3));
    assert!(bit_set.get(4));
    assert!(!bit_set.get(5));
    assert!(!bit_set.get(6));
    assert!(bit_set.get(7));
    assert!(!bit_set.get(8));
    assert!(!bit_set.get(9));
}

#[test]
fn doc_id_run_end_for_range_is_max_doc() {
    let mut it = range(2, 10).unwrap();
    it.next_doc().unwrap();
    assert_eq!(it.doc_id_run_end().unwrap(), 10);
}

#[test]
fn range_constructor_rejects_invalid_arguments() {
    assert!(all(-1).is_err());
    assert!(range(5, 5).is_err());
    assert!(range(-1, 5).is_err());
}

#[test]
fn accept_docs_match_all_iterates_everything() {
    let mut accept = from_live_docs(None, 5).unwrap();
    assert!(accept.bits().unwrap().is_none());
    let mut it = accept.iterator().unwrap();
    for d in 0..5 {
        assert_eq!(it.next_doc().unwrap(), d);
    }
    assert_eq!(it.next_doc().unwrap(), NO_MORE_DOCS);
    assert_eq!(accept.cost().unwrap(), 5);
}

#[test]
fn accept_docs_from_bits_filters_iterator() {
    let bits: Box<dyn Bits> = Box::new(EvenBits { max_doc: 8 });
    let mut accept = from_live_docs(Some(bits), 8).unwrap();
    let bits_ref = accept.bits().unwrap().unwrap();
    assert_eq!(bits_ref.length(), 8);
    let mut it = accept.iterator().unwrap();
    for expected in [0, 2, 4, 6] {
        assert_eq!(it.next_doc().unwrap(), expected);
    }
    assert_eq!(it.next_doc().unwrap(), NO_MORE_DOCS);
}

#[test]
fn accept_docs_from_iterator_supplier_builds_bits_and_cost() {
    let supplier = || -> Result<Box<dyn DocIdSetIterator>, LuceneError> {
        Ok(Box::new(VecDocIdSetIterator::new(vec![1, 3, 5, 7])))
    };
    let mut accept = from_iterator_supplier(supplier, None, 10).unwrap();
    assert_eq!(accept.cost().unwrap(), 4);

    let bits = accept.bits().unwrap().unwrap();
    assert!(bits.get(1));
    assert!(bits.get(3));
    assert!(bits.get(5));
    assert!(bits.get(7));
    assert!(!bits.get(0));
    assert!(!bits.get(2));

    let mut it = accept.iterator().unwrap();
    for expected in [1, 3, 5, 7] {
        assert_eq!(it.next_doc().unwrap(), expected);
    }
    assert_eq!(it.next_doc().unwrap(), NO_MORE_DOCS);
}

#[test]
fn accept_docs_from_iterator_with_live_docs_combines_filters() {
    let supplier = || -> Result<Box<dyn DocIdSetIterator>, LuceneError> {
        Ok(Box::new(VecDocIdSetIterator::new(vec![0, 2, 4, 6, 8])))
    };
    let live: Box<dyn Bits> = Box::new(EvenBits { max_doc: 10 });
    let mut accept = from_iterator_supplier(supplier, Some(live), 10).unwrap();
    let mut it = accept.iterator().unwrap();
    for expected in [0, 2, 4, 6, 8] {
        assert_eq!(it.next_doc().unwrap(), expected);
    }
    assert_eq!(it.next_doc().unwrap(), NO_MORE_DOCS);

    let bits = accept.bits().unwrap().unwrap();
    assert!(bits.get(0));
    assert!(!bits.get(1));
    assert!(bits.get(2));
    assert!(bits.get(4));
    assert!(bits.get(6));
    assert!(bits.get(8));
    assert_eq!(accept.cost().unwrap(), 5);
}

#[test]
fn bits_accept_docs_rejects_length_mismatch() {
    let bits: Box<dyn Bits> = Box::new(EvenBits { max_doc: 5 });
    assert!(from_live_docs(Some(bits), 8).is_err());
}

#[test]
fn iterator_accept_docs_rejects_length_mismatch() {
    let supplier = || -> Result<Box<dyn DocIdSetIterator>, LuceneError> {
        Ok(Box::new(VecDocIdSetIterator::new(vec![])))
    };
    let live: Box<dyn Bits> = Box::new(EvenBits { max_doc: 5 });
    assert!(from_iterator_supplier(supplier, Some(live), 8).is_err());
}
