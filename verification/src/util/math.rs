//! Integer helpers.

use vstd::prelude::*;

verus! {

/// The lesser of two numbers that are compared as unsigned ones: a negative
/// number is greater than any other.
pub open spec fn spec_unsigned_min(a: i32, b: i32) -> i32 {
    if (a >= 0) == (b >= 0) {
        if a < b {
            a
        } else {
            b
        }
    } else if a >= 0 {
        a
    } else {
        b
    }
}

/// Returns the lesser of two numbers that are compared as unsigned ones.
pub fn unsigned_min(a: i32, b: i32) -> (r: i32)
    ensures
        r == spec_unsigned_min(a, b),
{
    if (a >= 0) == (b >= 0) {
        if a < b {
            a
        } else {
            b
        }
    } else if a >= 0 {
        a
    } else {
        b
    }
}

} // verus!
