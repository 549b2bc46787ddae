//! The integers that stand for floating-point numbers, which are given by their bits.
//!
//! The library works with integers that are ordered like numbers: negative zero is less than
//! zero, and what is no number is greater than all numbers.

use vstd::prelude::*;

verus! {

/// The bits of a single-precision number without its sign.
pub open spec fn single_magnitude(bits: u32) -> int {
    if bits >= 0x8000_0000 {
        bits - 0x8000_0000
    } else {
        bits as int
    }
}

/// Whether the bits are those of no number.
pub open spec fn single_is_nan(bits: u32) -> bool {
    single_magnitude(bits) > 0x7f80_0000
}

/// Whether a single-precision number is less than another one: by its sign, and then by its magnitude.
/// Negative zero is less than zero.
pub open spec fn single_less(a: u32, b: u32) -> bool {
    if a >= 0x8000_0000 {
        b < 0x8000_0000 || single_magnitude(a) > single_magnitude(b)
    } else {
        b < 0x8000_0000 && single_magnitude(a) < single_magnitude(b)
    }
}

/// The integer that stands for a single-precision number with the given bits.
pub open spec fn single_key_of(bits: u32) -> int {
    if single_is_nan(bits) {
        0x7fc0_0000
    } else if bits >= 0x8000_0000 {
        -1 - single_magnitude(bits)
    } else {
        single_magnitude(bits)
    }
}

/// Returns the integer that stands for a single-precision number with the given bits.
pub fn single_key(bits: u32) -> (r: i32)
    ensures
        r == single_key_of(bits),
{
    let magnitude: u32 = if bits >= 0x8000_0000 {
        bits - 0x8000_0000
    } else {
        bits
    };
    if magnitude > 0x7f80_0000 {
        0x7fc0_0000
    } else if bits >= 0x8000_0000 {
        -1 - (magnitude as i32)
    } else {
        magnitude as i32
    }
}

/// Returns the bits of the single-precision number that an integer stands for.
pub fn single_bits(key: i32) -> (r: u32)
    ensures
        r == if key >= 0 {
            key as int
        } else {
            0x8000_0000 + (-1 - key)
        },
{
    if key >= 0 {
        key as u32
    } else {
        0x8000_0000 + (-1 - key) as u32
    }
}

/// The integers that stand for single-precision numbers are ordered like them. What is no number comes
/// after all numbers.
pub proof fn single_keys_are_ordered(a: u32, b: u32)
    ensures
        !single_is_nan(a) && !single_is_nan(b) ==> (single_key_of(a) < single_key_of(b)
            <==> single_less(a, b)),
        single_is_nan(b) ==> (single_key_of(a) < single_key_of(b) <==> !single_is_nan(a)),
        single_key_of(a) == single_key_of(b) <==> a == b || (single_is_nan(a)
            && single_is_nan(b)),
{
}

/// A single-precision number is known by the integer that stands for it.
pub proof fn single_keys_are_reversible(bits: u32)
    requires
        !single_is_nan(bits),
    ensures
        bits == if single_key_of(bits) >= 0 {
            single_key_of(bits)
        } else {
            0x8000_0000 + (-1 - single_key_of(bits))
        },
{
}

/// The bits of a double-precision number without its sign.
pub open spec fn double_magnitude(bits: u64) -> int {
    if bits >= 0x8000_0000_0000_0000 {
        bits - 0x8000_0000_0000_0000
    } else {
        bits as int
    }
}

/// Whether the bits are those of no number.
pub open spec fn double_is_nan(bits: u64) -> bool {
    double_magnitude(bits) > 0x7ff0_0000_0000_0000
}

/// Whether a double-precision number is less than another one: by its sign, and then by its magnitude.
/// Negative zero is less than zero.
pub open spec fn double_less(a: u64, b: u64) -> bool {
    if a >= 0x8000_0000_0000_0000 {
        b < 0x8000_0000_0000_0000 || double_magnitude(a) > double_magnitude(b)
    } else {
        b < 0x8000_0000_0000_0000 && double_magnitude(a) < double_magnitude(b)
    }
}

/// The integer that stands for a double-precision number with the given bits.
pub open spec fn double_key_of(bits: u64) -> int {
    if double_is_nan(bits) {
        0x7ff8_0000_0000_0000
    } else if bits >= 0x8000_0000_0000_0000 {
        -1 - double_magnitude(bits)
    } else {
        double_magnitude(bits)
    }
}

/// Returns the integer that stands for a double-precision number with the given bits.
pub fn double_key(bits: u64) -> (r: i64)
    ensures
        r == double_key_of(bits),
{
    let magnitude: u64 = if bits >= 0x8000_0000_0000_0000 {
        bits - 0x8000_0000_0000_0000
    } else {
        bits
    };
    if magnitude > 0x7ff0_0000_0000_0000 {
        0x7ff8_0000_0000_0000
    } else if bits >= 0x8000_0000_0000_0000 {
        -1 - (magnitude as i64)
    } else {
        magnitude as i64
    }
}

/// Returns the bits of the double-precision number that an integer stands for.
pub fn double_bits(key: i64) -> (r: u64)
    ensures
        r == if key >= 0 {
            key as int
        } else {
            0x8000_0000_0000_0000 + (-1 - key)
        },
{
    if key >= 0 {
        key as u64
    } else {
        0x8000_0000_0000_0000 + (-1 - key) as u64
    }
}

/// The integers that stand for double-precision numbers are ordered like them. What is no number comes
/// after all numbers.
pub proof fn double_keys_are_ordered(a: u64, b: u64)
    ensures
        !double_is_nan(a) && !double_is_nan(b) ==> (double_key_of(a) < double_key_of(b)
            <==> double_less(a, b)),
        double_is_nan(b) ==> (double_key_of(a) < double_key_of(b) <==> !double_is_nan(a)),
        double_key_of(a) == double_key_of(b) <==> a == b || (double_is_nan(a)
            && double_is_nan(b)),
{
}

/// A double-precision number is known by the integer that stands for it.
pub proof fn double_keys_are_reversible(bits: u64)
    requires
        !double_is_nan(bits),
    ensures
        bits == if double_key_of(bits) >= 0 {
            double_key_of(bits)
        } else {
            0x8000_0000_0000_0000 + (-1 - double_key_of(bits))
        },
{
}

/// Returns the greater of two single-precision numbers, given by their bits; if one of them
/// is no number, that one.
pub fn java_math_max(a: u32, b: u32) -> (r: u32)
    ensures
        r == a || r == b,
        single_key_of(r) >= single_key_of(a),
        single_key_of(r) >= single_key_of(b),
        single_is_nan(a) ==> r == a,
{
    if single_key(a) >= single_key(b) {
        a
    } else {
        b
    }
}

} // verus!
