//! Names for the mathematical types that contracts speak of. An implementation of a trait of
//! this library needs them where it is written outside of it.

use vstd::prelude::*;

verus! {

/// An integer of any size.
pub type Integer = int;

/// A natural number of any size.
pub type Natural = nat;

/// A sequence.
pub type Sequence<A> = Seq<A>;

/// A set.
pub type Collection<A> = Set<A>;

/// A map.
pub type Table<K, V> = Map<K, V>;

} // verus!
