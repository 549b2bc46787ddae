//! The order of byte strings.

use vstd::prelude::*;

verus! {

/// The order of two byte strings from position `i` on: negative when the first one comes
/// first, positive when the second one does, 0 when they are equal. Bytes are unsigned,
/// and a string comes before those that it is the beginning of.
pub open spec fn order_from(a: Seq<u8>, b: Seq<u8>, i: int) -> int
    decreases a.len() - i,
{
    if i >= a.len() || i >= b.len() {
        if a.len() < b.len() {
            -1
        } else if a.len() > b.len() {
            1
        } else {
            0
        }
    } else if a[i] < b[i] {
        -1
    } else if a[i] > b[i] {
        1
    } else {
        order_from(a, b, i + 1)
    }
}

/// The order of two byte strings.
pub open spec fn order_of_bytes(a: Seq<u8>, b: Seq<u8>) -> int {
    order_from(a, b, 0)
}

/// Returns the order of two byte strings.
pub fn compare_bytes(a: &[u8], b: &[u8]) -> (r: i32)
    ensures
        r == order_of_bytes(a@, b@),
        -1 <= r <= 1,
{
    let mut i: usize = 0;
    while i < a.len() && i < b.len()
        invariant
            i <= a@.len(),
            i <= b@.len(),
            order_of_bytes(a@, b@) == order_from(a@, b@, i as int),
        decreases a.len() - i,
    {
        if a[i] < b[i] {
            return -1;
        }
        if a[i] > b[i] {
            return 1;
        }
        i += 1;
    }
    if a.len() < b.len() {
        -1
    } else if a.len() > b.len() {
        1
    } else {
        0
    }
}

/// Returns a copy of a byte string.
pub fn copy_of(a: &[u8]) -> (r: Vec<u8>)
    ensures
        r@ == a@,
{
    let mut r: Vec<u8> = Vec::with_capacity(a.len());
    let mut i: usize = 0;
    while i < a.len()
        invariant
            i <= a@.len(),
            r@ =~= a@.take(i as int),
        decreases a.len() - i,
    {
        r.push(a[i]);
        i += 1;
    }
    assert(r@ =~= a@);
    r
}

proof fn lemma_opposite(a: Seq<u8>, b: Seq<u8>, i: int)
    requires
        i >= 0,
    ensures
        order_from(a, b, i) == -order_from(b, a, i),
    decreases a.len() - i,
{
    if i < a.len() && i < b.len() && a[i] == b[i] {
        lemma_opposite(a, b, i + 1);
    }
}

proof fn lemma_equal(a: Seq<u8>, b: Seq<u8>, i: int)
    requires
        0 <= i,
        forall|k: int| 0 <= k < i && k < a.len() && k < b.len() ==> a[k] == b[k],
        order_from(a, b, i) == 0,
    ensures
        a == b,
    decreases a.len() - i,
{
    if i >= a.len() || i >= b.len() {
        assert(a =~= b);
    } else {
        lemma_equal(a, b, i + 1);
    }
}

proof fn lemma_transitive(a: Seq<u8>, b: Seq<u8>, c: Seq<u8>, i: int)
    requires
        0 <= i,
        order_from(a, b, i) <= 0,
        order_from(b, c, i) <= 0,
        i <= a.len(),
        i <= b.len(),
        i <= c.len(),
    ensures
        order_from(a, c, i) <= 0,
    decreases a.len() - i,
{
    if i < a.len() && i < b.len() && i < c.len() && a[i] == b[i] && b[i] == c[i] {
        lemma_transitive(a, b, c, i + 1);
    }
}

/// Byte strings are totally ordered: exchanging two of them turns the order round, only
/// equal ones have no order, and the order is transitive.
pub proof fn bytes_are_ordered(a: Seq<u8>, b: Seq<u8>, c: Seq<u8>)
    ensures
        order_of_bytes(a, b) == -order_of_bytes(b, a),
        order_of_bytes(a, b) == 0 <==> a == b,
        order_of_bytes(a, b) <= 0 && order_of_bytes(b, c) <= 0 ==> order_of_bytes(a, c) <= 0,
{
    lemma_opposite(a, b, 0);
    if order_of_bytes(a, b) == 0 {
        lemma_equal(a, b, 0);
    }
    if a == b {
        lemma_opposite(a, a, 0);
    }
    if order_of_bytes(a, b) <= 0 && order_of_bytes(b, c) <= 0 {
        lemma_transitive(a, b, c, 0);
    }
}

} // verus!
