//! Random access to a fixed-length sequence of bits.

use vstd::prelude::*;

verus! {

/// A fixed-length sequence of bits with random access.
pub trait Bits {
    /// The bits of this instance, in order.
    spec fn bit_seq(&self) -> Seq<bool>;

    /// Returns the bit at `index`.
    fn get(&self, index: usize) -> (r: bool)
        requires
            index < self.bit_seq().len(),
        ensures
            r == self.bit_seq()[index as int],
    ;

    /// Returns the number of bits.
    fn length(&self) -> (r: usize)
        ensures
            r == self.bit_seq().len(),
    ;
}

/// Bits that are all set.
#[derive(Debug, Clone, Copy)]
pub struct MatchAllBits {
    len: usize,
}

impl MatchAllBits {
    /// Creates `len` bits that are all set.
    pub fn new(len: usize) -> (r: Self)
        ensures
            r.bit_seq() == Seq::new(len as nat, |i: int| true),
    {
        MatchAllBits { len }
    }
}

impl Bits for MatchAllBits {
    closed spec fn bit_seq(&self) -> Seq<bool> {
        Seq::new(self.len as nat, |i: int| true)
    }

    fn get(&self, index: usize) -> (r: bool) {
        true
    }

    fn length(&self) -> (r: usize) {
        self.len
    }
}

impl Bits for Box<dyn Bits> {
    open spec fn bit_seq(&self) -> Seq<bool> {
        (**self).bit_seq()
    }

    fn get(&self, index: usize) -> (r: bool) {
        (**self).get(index)
    }

    fn length(&self) -> (r: usize) {
        (**self).length()
    }
}

} // verus!
