//! A bit set over a fixed number of bits, stored in 64-bit words.

use vstd::prelude::*;

use crate::util::bits::Bits;

verus! {

/// The bit at position `k` of a word.
pub open spec fn word_bit(w: u64, k: int) -> bool {
    (w >> (k as u64)) & 1u64 == 1u64
}

/// The number of set bits among the first `n` bits of `s`.
pub open spec fn count_set(s: Seq<bool>, n: int) -> nat
    decreases n,
{
    if n <= 0 {
        0
    } else {
        count_set(s, n - 1) + if s[n - 1] { 1nat } else { 0nat }
    }
}

/// `r` is the position of the first set bit of `s` at or after `from`, or
/// `None` when there is none.
pub open spec fn is_next_set_bit(s: Seq<bool>, from: int, r: Option<int>) -> bool {
    match r {
        Some(i) => {
            &&& from <= i < s.len()
            &&& s[i]
            &&& forall|j: int| from <= j < i ==> !#[trigger] s[j]
        },
        None => forall|j: int| from <= j < s.len() ==> !#[trigger] s[j],
    }
}

proof fn lemma_set_word_bit(w: u64, k: u64, j: u64)
    by (bit_vector)
    requires
        k < 64,
        j < 64,
    ensures
        ((w | (1u64 << k)) >> j) & 1u64 == (if j == k {
            1u64
        } else {
            (w >> j) & 1u64
        }),
{
}

proof fn lemma_clear_word_bit(w: u64, k: u64, j: u64)
    by (bit_vector)
    requires
        k < 64,
        j < 64,
    ensures
        ((w & !(1u64 << k)) >> j) & 1u64 == (if j == k {
            0u64
        } else {
            (w >> j) & 1u64
        }),
{
}

proof fn lemma_mask_from(w: u64, shift: u64, j: u64)
    by (bit_vector)
    requires
        shift < 64,
        j < 64,
    ensures
        ((w & (!0u64 << shift)) >> j) & 1u64 == (if j < shift {
            0u64
        } else {
            (w >> j) & 1u64
        }),
{
}

proof fn lemma_and_word_bit(a: u64, b: u64, j: u64)
    by (bit_vector)
    requires
        j < 64,
    ensures
        ((a & b) >> j) & 1u64 == ((a >> j) & 1u64) & ((b >> j) & 1u64),
        ((a >> j) & 1u64) & ((b >> j) & 1u64) == 1u64 <==> ((a >> j) & 1u64 == 1u64 && (b >> j)
            & 1u64 == 1u64),
{
}

proof fn lemma_zero_word_bit(j: u64)
    by (bit_vector)
    ensures
        (0u64 >> j) & 1u64 == 0u64,
{
}

proof fn lemma_index_split(i: usize)
    by (bit_vector)
    ensures
        i >> 6usize == i / 64,
        i & 0x3fusize == i % 64,
{
}

/// The bits that `words` stand for, truncated to `num_bits`.
pub open spec fn bits_of_words(words: Seq<u64>, num_bits: int) -> Seq<bool> {
    Seq::new(num_bits as nat, |i: int| word_bit(words[i / 64], i % 64))
}

/// A set of bits of a fixed size.
#[derive(Debug)]
pub struct FixedBitSet {
    bits: Vec<u64>,
    num_bits: usize,
}

impl View for FixedBitSet {
    type V = Seq<bool>;

    closed spec fn view(&self) -> Seq<bool> {
        bits_of_words(self.bits@, self.num_bits as int)
    }
}

impl FixedBitSet {
    #[verifier::type_invariant]
    spec fn well_formed(self) -> bool {
        self.bits.len() == (self.num_bits + 63) / 64
    }

    /// Creates a set of `num_bits` bits, none of which is set.
    pub fn new(num_bits: usize) -> (r: Self)
        ensures
            r@ == Seq::new(num_bits as nat, |i: int| false),
    {
        let n: usize = num_bits / 64 + if num_bits % 64 == 0 {
            0usize
        } else {
            1usize
        };
        let bits: Vec<u64> = vec![0u64; n];
        let r = FixedBitSet { bits, num_bits };
        assert forall|i: int| 0 <= i < num_bits implies !#[trigger] r@[i] by {
            lemma_zero_word_bit((i % 64) as u64);
        }
        assert(r@ =~= Seq::new(num_bits as nat, |i: int| false));
        r
    }

    /// Sets the bit at `index`.
    pub fn set(&mut self, index: usize)
        requires
            index < old(self)@.len(),
        ensures
            final(self)@ == old(self)@.update(index as int, true),
    {
        proof {
            use_type_invariant(&*self);
        }
        let word: usize = index / 64;
        let k: u64 = (index % 64) as u64;
        let w: u64 = self.bits[word] | (1u64 << k);
        self.bits[word] = w;
        proof {
            let before = old(self).bits@;
            assert forall|i: int| 0 <= i < self.num_bits implies #[trigger] self@[i] == old(
                self,
            )@.update(index as int, true)[i] by {
                lemma_set_word_bit(before[word as int], k, (i % 64) as u64);
            }
            assert(self@ =~= old(self)@.update(index as int, true));
        }
    }

    /// Clears the bit at `index`.
    pub fn clear(&mut self, index: usize)
        requires
            index < old(self)@.len(),
        ensures
            final(self)@ == old(self)@.update(index as int, false),
    {
        proof {
            use_type_invariant(&*self);
        }
        let word: usize = index / 64;
        let k: u64 = (index % 64) as u64;
        let w: u64 = self.bits[word] & !(1u64 << k);
        self.bits[word] = w;
        proof {
            let before = old(self).bits@;
            assert forall|i: int| 0 <= i < self.num_bits implies #[trigger] self@[i] == old(
                self,
            )@.update(index as int, false)[i] by {
                lemma_clear_word_bit(before[word as int], k, (i % 64) as u64);
            }
            assert(self@ =~= old(self)@.update(index as int, false));
        }
    }

    /// Sets the bits of `[start, end)`; an empty range changes nothing.
    pub fn set_range(&mut self, start: usize, end: usize)
        requires
            end <= old(self)@.len(),
        ensures
            final(self)@ == Seq::new(
                old(self)@.len(),
                |i: int| (start <= i < end) || old(self)@[i],
            ),
    {
        let mut i: usize = start;
        while i < end
            invariant
                start <= i,
                i <= end || i == start,
                end <= self@.len(),
                self@.len() == old(self)@.len(),
                forall|j: int| 0 <= j < self@.len() ==> #[trigger] self@[j] == ((start <= j < i)
                    || old(self)@[j]),
            decreases end - i,
        {
            self.set(i);
            i += 1;
        }
        assert(self@ =~= Seq::new(
            old(self)@.len(),
            |i: int| (start <= i < end) || old(self)@[i],
        ));
    }

    /// Clears every bit.
    pub fn clear_all(&mut self)
        ensures
            final(self)@ == Seq::new(old(self)@.len(), |i: int| false),
    {
        proof {
            use_type_invariant(&*self);
        }
        let mut w: usize = 0;
        while w < self.bits.len()
            invariant
                self.num_bits == old(self).num_bits,
                self.bits.len() == old(self).bits.len(),
                self.well_formed(),
                w <= self.bits.len(),
                forall|j: int| 0 <= j < w ==> self.bits[j] == 0u64,
            decreases self.bits.len() - w,
        {
            self.bits[w] = 0u64;
            w += 1;
        }
        proof {
            assert forall|i: int| 0 <= i < self.num_bits implies !#[trigger] self@[i] by {
                lemma_zero_word_bit((i % 64) as u64);
            }
            assert(self@ =~= Seq::new(old(self)@.len(), |i: int| false));
        }
    }

    /// Returns the number of set bits.
    pub fn cardinality(&self) -> (r: usize)
        ensures
            r == count_set(self@, self@.len() as int),
            r <= self@.len(),
    {
        let n: usize = self.length();
        let mut i: usize = 0;
        let mut count: usize = 0;
        while i < n
            invariant
                n == self@.len(),
                i <= n,
                count <= i,
                count == count_set(self@, i as int),
            decreases n - i,
        {
            if self.get(i) {
                count += 1;
            }
            i += 1;
        }
        count
    }

    /// Keeps the bits that are also set in `other`.
    pub fn and_in_place(&mut self, other: &FixedBitSet)
        requires
            old(self)@.len() == other@.len(),
        ensures
            final(self)@ == Seq::new(old(self)@.len(), |i: int| old(self)@[i] && other@[i]),
    {
        proof {
            use_type_invariant(&*self);
            use_type_invariant(other);
        }
        let mut w: usize = 0;
        while w < self.bits.len()
            invariant
                self.num_bits == old(self).num_bits,
                self.num_bits == other.num_bits,
                self.bits.len() == old(self).bits.len(),
                self.bits.len() == other.bits.len(),
                self.well_formed(),
                w <= self.bits.len(),
                forall|j: int| 0 <= j < w ==> self.bits[j] == old(self).bits[j] & other.bits[j],
                forall|j: int| w <= j < self.bits.len() ==> self.bits[j] == old(self).bits[j],
            decreases self.bits.len() - w,
        {
            let masked: u64 = self.bits[w] & other.bits[w];
            self.bits[w] = masked;
            w += 1;
        }
        proof {
            assert forall|i: int| 0 <= i < self.num_bits implies #[trigger] self@[i] == (old(
                self,
            )@[i] && other@[i]) by {
                let j = i / 64;
                lemma_and_word_bit(old(self).bits[j], other.bits[j], (i % 64) as u64);
            }
            assert(self@ =~= Seq::new(old(self)@.len(), |i: int| old(self)@[i] && other@[i]));
        }
    }

    /// Returns the position of the first set bit at or after `from`, if any.
    pub fn next_set_bit(&self, from: usize) -> (r: Option<usize>)
        ensures
            is_next_set_bit(
                self@,
                from as int,
                (match r {
                    Some(i) => Some(i as int),
                    None => None,
                }),
            ),
    {
        proof {
            use_type_invariant(self);
            lemma_index_split(from);
        }
        let num_words: usize = self.bits.len();
        let mut word_index: usize = from >> 6;
        if word_index >= num_words {
            return None;
        }
        let shift: u64 = (from & 0x3f) as u64;
        let mut word: u64 = self.bits[word_index] & (!0u64 << shift);
        proof {
            assert forall|j: int| 0 <= j < 64 implies #[trigger] word_bit(word, j) == (j >= shift
                && word_bit(self.bits[word_index as int], j)) by {
                lemma_mask_from(self.bits[word_index as int], shift, j as u64);
            }
        }
        while word == 0
            invariant
                num_words == self.bits.len(),
                num_words == (self.num_bits + 63) / 64,
                from / 64 <= word_index < num_words,
                forall|i: int|
                    from <= i < self.num_bits && i / 64 < word_index ==> !#[trigger] self@[i],
                forall|j: int|
                    0 <= j < 64 ==> #[trigger] word_bit(word, j) == (64 * word_index + j >= from
                        && word_bit(self.bits[word_index as int], j)),
            decreases num_words - word_index,
        {
            proof {
                assert forall|i: int| from <= i < self.num_bits && i / 64 < word_index
                    + 1 implies !#[trigger] self@[i] by {
                    if i / 64 == word_index {
                        lemma_zero_word_bit((i % 64) as u64);
                        assert(!word_bit(word, i % 64));
                    }
                }
            }
            word_index += 1;
            if word_index >= num_words {
                return None;
            }
            word = self.bits[word_index];
        }
        let bit_index: usize = word.trailing_zeros() as usize;
        proof {
            broadcast use vstd::std_specs::bits::group_bits_axioms;

            assert(bit_index < 64);
            assert(word_bit(word, bit_index as int));
            assert forall|j: int| 0 <= j < bit_index implies !#[trigger] word_bit(word, j) by {
                assert((word >> (j as u64)) & 1u64 == 0u64);
            }
        }
        let candidate: usize = word_index * 64 + bit_index;
        proof {
            assert forall|i: int| from <= i < candidate && i < self.num_bits implies !#[trigger] self@[i] by {
                if i / 64 == word_index {
                    assert(!word_bit(word, i % 64));
                }
            }
        }
        if candidate >= self.num_bits {
            return None;
        }
        Some(candidate)
    }
}

impl Bits for FixedBitSet {
    open spec fn bit_seq(&self) -> Seq<bool> {
        self@
    }

    fn get(&self, index: usize) -> (r: bool) {
        proof {
            use_type_invariant(self);
        }
        let k: u64 = (index % 64) as u64;
        (self.bits[index / 64] >> k) & 1u64 == 1u64
    }

    fn length(&self) -> (r: usize) {
        self.num_bits
    }
}

impl Clone for FixedBitSet {
    fn clone(&self) -> (r: Self)
        ensures
            r@ == self@,
    {
        proof {
            use_type_invariant(self);
        }
        let bits: Vec<u64> = self.bits.clone();
        assert(bits@ =~= self.bits@);
        FixedBitSet { bits, num_bits: self.num_bits }
    }
}

} // verus!
