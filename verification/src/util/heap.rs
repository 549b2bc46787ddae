//! Binary heaps in a sequence: the sift operations and what they keep.
//!
//! Position 0 is the root, and the children of position `i` are `2 * i + 1`
//! and `2 * i + 2`. The operations are defined for any comparison `lt`; the
//! heap property is stated for a total preorder `le` that `lt` refines.

use vstd::prelude::*;

verus! {

/// `s` with the elements at `i` and `j` exchanged.
pub open spec fn swapped<T>(s: Seq<T>, i: int, j: int) -> Seq<T> {
    s.update(i, s[j]).update(j, s[i])
}

/// The parent of a position other than the root.
pub open spec fn parent(i: int) -> int {
    (i - 1) / 2
}

/// `s` after moving the element at `i` towards the root while it is less than
/// its parent.
pub open spec fn sift_up<T>(s: Seq<T>, lt: spec_fn(T, T) -> bool, i: int) -> Seq<T>
    decreases i,
{
    if 0 < i < s.len() && lt(s[i], s[parent(i)]) {
        sift_up(swapped(s, i, parent(i)), lt, parent(i))
    } else {
        s
    }
}

/// The child of `i` that [`sift_down`] compares with: the second one when it is
/// less than the first one.
pub open spec fn lesser_child<T>(s: Seq<T>, lt: spec_fn(T, T) -> bool, i: int) -> int {
    if 2 * i + 2 < s.len() && lt(s[2 * i + 2], s[2 * i + 1]) {
        2 * i + 2
    } else {
        2 * i + 1
    }
}

/// `s` after moving the element at `i` towards the leaves while a child is less
/// than it.
pub open spec fn sift_down<T>(s: Seq<T>, lt: spec_fn(T, T) -> bool, i: int) -> Seq<T>
    decreases s.len() - i,
{
    let c = lesser_child(s, lt, i);
    if 0 <= i && 2 * i + 1 < s.len() && lt(s[c], s[i]) {
        sift_down(swapped(s, i, c), lt, c)
    } else {
        s
    }
}

/// `s` after sifting down the elements at `k - 1`, `k - 2`, ..., 0, in this
/// order.
pub open spec fn heapified<T>(s: Seq<T>, lt: spec_fn(T, T) -> bool, k: int) -> Seq<T>
    decreases k,
{
    if k <= 0 {
        s
    } else {
        heapified(sift_down(s, lt, k - 1), lt, k - 1)
    }
}

/// `le` is a total preorder that `lt` refines: `lt` decides every pair that
/// `le` orders strictly.
pub open spec fn refines<T>(lt: spec_fn(T, T) -> bool, le: spec_fn(T, T) -> bool) -> bool {
    &&& forall|a: T, b: T| #[trigger] lt(a, b) ==> le(a, b)
    &&& forall|a: T, b: T| !#[trigger] lt(a, b) ==> le(b, a)
    &&& forall|a: T, b: T, c: T| #[trigger] le(a, b) && #[trigger] le(b, c) ==> le(a, c)
}

/// No element comes before its parent, from position `from` on.
pub open spec fn is_heap_from<T>(s: Seq<T>, le: spec_fn(T, T) -> bool, from: int) -> bool {
    forall|c: int| #![trigger s[c]] 0 < c < s.len() && parent(c) >= from ==> le(s[parent(c)], s[c])
}

/// No element comes before its parent.
pub open spec fn is_heap<T>(s: Seq<T>, le: spec_fn(T, T) -> bool) -> bool {
    is_heap_from(s, le, 0)
}

proof fn lemma_swap_multiset<T>(s: Seq<T>, i: int, j: int)
    requires
        0 <= i < s.len(),
        0 <= j < s.len(),
    ensures
        swapped(s, i, j).len() == s.len(),
        swapped(s, i, j).to_multiset() == s.to_multiset(),
{
    broadcast use vstd::seq_lib::group_to_multiset_ensures;

    let a = s.update(i, s[j]);
    assert(a.to_multiset() =~= s.to_multiset().remove(s[i]).insert(s[j]));
    assert(swapped(s, i, j).to_multiset() =~= a.to_multiset().remove(a[j]).insert(s[i]));
    assert(swapped(s, i, j).to_multiset() =~= s.to_multiset());
}

/// Moving the last element to the root and shortening the sequence removes the
/// root.
pub proof fn removed_root_keeps_others<T>(s: Seq<T>)
    requires
        s.len() > 0,
    ensures
        s.update(0, s.last()).drop_last().to_multiset().insert(s[0]) == s.to_multiset(),
{
    broadcast use vstd::seq_lib::group_to_multiset_ensures;

    let moved = s.update(0, s.last());
    let rest = moved.drop_last();
    let m = s.to_multiset();
    assert(moved =~= rest.push(s.last()));
    assert(moved.to_multiset() =~= rest.to_multiset().insert(s.last()));
    assert(moved.to_multiset() =~= m.remove(s[0]).insert(s.last()));
    assert(s.contains(s[0]));
    assert(m.count(s[0]) > 0);
    assert forall|x: T| rest.to_multiset().insert(s[0]).count(x) == #[trigger] m.count(x) by {
        assert(rest.to_multiset().insert(s.last()).count(x) == m.remove(s[0]).insert(
            s.last(),
        ).count(x));
    }
    assert(rest.to_multiset().insert(s[0]) =~= m);
}

/// Sifting keeps the elements.
pub proof fn sift_up_keeps_elements<T>(s: Seq<T>, lt: spec_fn(T, T) -> bool, i: int)
    ensures
        sift_up(s, lt, i).len() == s.len(),
        sift_up(s, lt, i).to_multiset() == s.to_multiset(),
    decreases i,
{
    if 0 < i < s.len() && lt(s[i], s[parent(i)]) {
        lemma_swap_multiset(s, i, parent(i));
        sift_up_keeps_elements(swapped(s, i, parent(i)), lt, parent(i));
    }
}

/// Sifting keeps the elements.
pub proof fn sift_down_keeps_elements<T>(s: Seq<T>, lt: spec_fn(T, T) -> bool, i: int)
    ensures
        sift_down(s, lt, i).len() == s.len(),
        sift_down(s, lt, i).to_multiset() == s.to_multiset(),
    decreases s.len() - i,
{
    let c = lesser_child(s, lt, i);
    if 0 <= i && 2 * i + 1 < s.len() && lt(s[c], s[i]) {
        lemma_swap_multiset(s, i, c);
        sift_down_keeps_elements(swapped(s, i, c), lt, c);
    }
}

/// Heapifying keeps the elements.
pub proof fn heapified_keeps_elements<T>(s: Seq<T>, lt: spec_fn(T, T) -> bool, k: int)
    ensures
        heapified(s, lt, k).len() == s.len(),
        heapified(s, lt, k).to_multiset() == s.to_multiset(),
    decreases k,
{
    if k > 0 {
        sift_down_keeps_elements(s, lt, k - 1);
        heapified_keeps_elements(sift_down(s, lt, k - 1), lt, k - 1);
    }
}

/// Every edge of the heap is in order, except the one above `i`; the children
/// of `i` are in order with the parent of `i`.
spec fn is_heap_above<T>(s: Seq<T>, le: spec_fn(T, T) -> bool, i: int) -> bool {
    &&& forall|c: int| #![trigger s[c]]
        0 < c < s.len() && c != i ==> le(s[parent(c)], s[c])
    &&& forall|c: int| #![trigger s[c]]
        0 < c < s.len() && parent(c) == i && 0 < i ==> le(s[parent(i)], s[c])
}

proof fn lemma_sift_up_heap<T>(
    s: Seq<T>,
    lt: spec_fn(T, T) -> bool,
    le: spec_fn(T, T) -> bool,
    i: int,
)
    requires
        refines(lt, le),
        0 <= i < s.len(),
        is_heap_above(s, le, i),
    ensures
        is_heap(sift_up(s, lt, i), le),
    decreases i,
{
    if 0 < i && lt(s[i], s[parent(i)]) {
        let p = parent(i);
        let t = swapped(s, i, p);
        assert forall|c: int| #![trigger t[c]] 0 < c < t.len() && c != p implies le(
            t[parent(c)],
            t[c],
        ) by {
            assert(le(s[i], s[p]));
            assert(c != i ==> le(s[parent(c)], s[c]));
            assert(parent(c) == i ==> le(s[p], s[c]));
            assert(parent(c) == p && c != i ==> le(s[p], s[c]) && le(s[i], s[c]));
        }
        assert forall|c: int| #![trigger t[c]]
            0 < c < t.len() && parent(c) == p && 0 < p implies le(t[parent(p)], t[c]) by {
            assert(le(s[parent(p)], s[p]));
            if c != i {
                assert(le(s[p], s[c]));
            }
        }
        lemma_sift_up_heap(t, lt, le, p);
    } else {
        assert(0 < i ==> le(s[parent(i)], s[i]));
    }
}

/// A heap to which an element was appended is a heap again once the element is
/// sifted up.
pub proof fn sift_up_restores_heap<T>(
    s: Seq<T>,
    lt: spec_fn(T, T) -> bool,
    le: spec_fn(T, T) -> bool,
    x: T,
)
    requires
        refines(lt, le),
        is_heap(s, le),
    ensures
        is_heap(sift_up(s.push(x), lt, s.len() as int), le),
{
    let t = s.push(x);
    assert forall|c: int| #![trigger t[c]] 0 < c < t.len() && c != s.len() implies le(
        t[parent(c)],
        t[c],
    ) by {
        assert(le(s[parent(c)], s[c]));
    }
    lemma_sift_up_heap(t, lt, le, s.len() as int);
}

/// Every edge at or below `from` is in order, except the ones below `i`; the
/// children of `i` are in order with the parent of `i`.
spec fn is_heap_below<T>(s: Seq<T>, le: spec_fn(T, T) -> bool, from: int, i: int) -> bool {
    &&& forall|c: int| #![trigger s[c]]
        0 < c < s.len() && parent(c) >= from && parent(c) != i ==> le(s[parent(c)], s[c])
    &&& forall|c: int| #![trigger s[c]]
        0 < c < s.len() && parent(c) == i && 0 < i && parent(i) >= from ==> le(s[parent(i)], s[c])
}

proof fn lemma_sift_down_heap<T>(
    s: Seq<T>,
    lt: spec_fn(T, T) -> bool,
    le: spec_fn(T, T) -> bool,
    from: int,
    i: int,
)
    requires
        refines(lt, le),
        0 <= from <= i,
        is_heap_below(s, le, from, i),
    ensures
        is_heap_from(sift_down(s, lt, i), le, from),
    decreases s.len() - i,
{
    let c = lesser_child(s, lt, i);
    if 2 * i + 1 < s.len() && lt(s[c], s[i]) {
        let t = swapped(s, i, c);
        assert(parent(c) == i);
        assert(le(s[c], s[i]));
        assert forall|d: int| #![trigger s[d]]
            0 < d < s.len() && parent(d) == i implies le(s[c], s[d]) by {
            assert(d == 2 * i + 1 || d == 2 * i + 2);
            if d == c {
                if lt(s[c], s[c]) {
                } else {
                }
            }
        }
        assert forall|d: int| #![trigger t[d]]
            0 < d < t.len() && parent(d) >= from && parent(d) != c implies le(t[parent(d)], t[d]) by {
            if parent(d) == i {
                assert(t[i] == s[c]);
                if d == c {
                    assert(t[d] == s[i]);
                } else {
                    assert(t[d] == s[d]);
                    assert(le(s[c], s[d]));
                }
            } else if d == i {
                assert(le(s[parent(i)], s[c]));
            } else {
                assert(le(s[parent(d)], s[d]));
            }
        }
        assert forall|d: int| #![trigger t[d]]
            0 < d < t.len() && parent(d) == c && 0 < c && parent(c) >= from implies le(
            t[parent(c)],
            t[d],
        ) by {
            assert(le(s[parent(d)], s[d]));
        }
        lemma_sift_down_heap(t, lt, le, from, c);
    } else {
        assert forall|d: int| #![trigger s[d]]
            0 < d < s.len() && parent(d) >= from implies le(s[parent(d)], s[d]) by {
            if parent(d) == i {
                assert(d == 2 * i + 1 || d == 2 * i + 2);
                assert(le(s[i], s[c]));
                if d != c {
                    assert(le(s[c], s[d]));
                }
            }
        }
    }
}

/// A heap whose root was replaced is a heap again once the root is sifted down.
pub proof fn sift_down_restores_heap<T>(
    s: Seq<T>,
    lt: spec_fn(T, T) -> bool,
    le: spec_fn(T, T) -> bool,
)
    requires
        refines(lt, le),
        is_heap_from(s, le, 1),
    ensures
        is_heap(sift_down(s, lt, 0), le),
{
    lemma_sift_down_heap(s, lt, le, 0, 0);
}

/// Sifting down every position that has a child, from the last to the first,
/// makes any sequence a heap.
pub proof fn heapified_is_heap<T>(
    s: Seq<T>,
    lt: spec_fn(T, T) -> bool,
    le: spec_fn(T, T) -> bool,
    k: int,
)
    requires
        refines(lt, le),
        0 <= k,
        is_heap_from(s, le, k),
    ensures
        is_heap(heapified(s, lt, k), le),
    decreases k,
{
    if k > 0 {
        lemma_sift_down_heap(s, lt, le, k - 1, k - 1);
        heapified_is_heap(sift_down(s, lt, k - 1), lt, le, k - 1);
    }
}

/// Heapifying leaves a sequence of elements none of which is less than another
/// as it is.
pub proof fn heapified_of_equals<T>(s: Seq<T>, lt: spec_fn(T, T) -> bool, k: int)
    requires
        k <= s.len(),
        forall|i: int, j: int|
            0 <= i < s.len() && 0 <= j < s.len() ==> !lt(#[trigger] s[i], #[trigger] s[j]),
    ensures
        heapified(s, lt, k) == s,
    decreases k,
{
    if k > 0 {
        let c = lesser_child(s, lt, k - 1);
        if 2 * (k - 1) + 1 < s.len() {
            assert(!lt(s[c], s[k - 1]));
        }
        assert(sift_down(s, lt, k - 1) == s);
        heapified_of_equals(s, lt, k - 1);
    }
}

/// The root of a heap comes before every element.
pub proof fn heap_root_is_least<T>(s: Seq<T>, le: spec_fn(T, T) -> bool, i: int)
    requires
        is_heap(s, le),
        forall|a: T| #[trigger] le(a, a),
        forall|a: T, b: T, c: T| #[trigger] le(a, b) && #[trigger] le(b, c) ==> le(a, c),
        0 <= i < s.len(),
    ensures
        le(s[0], s[i]),
    decreases i,
{
    if i > 0 {
        heap_root_is_least(s, le, parent(i));
        assert(le(s[parent(i)], s[i]));
    }
}

/// What holds of all elements holds of them after sifting one down.
pub proof fn sift_down_keeps_all<T>(
    s: Seq<T>,
    lt: spec_fn(T, T) -> bool,
    i: int,
    p: spec_fn(T) -> bool,
)
    requires
        forall|k: int| 0 <= k < s.len() ==> p(#[trigger] s[k]),
    ensures
        sift_down(s, lt, i).len() == s.len(),
        forall|k: int| 0 <= k < s.len() ==> p(#[trigger] sift_down(s, lt, i)[k]),
    decreases s.len() - i,
{
    let c = lesser_child(s, lt, i);
    if 0 <= i && 2 * i + 1 < s.len() && lt(s[c], s[i]) {
        let t = swapped(s, i, c);
        assert forall|k: int| 0 <= k < t.len() implies p(#[trigger] t[k]) by {
            assert(p(s[k]) && p(s[i]) && p(s[c]));
        }
        sift_down_keeps_all(t, lt, c, p);
    }
}

/// What holds of all elements holds of them after sifting one up.
pub proof fn sift_up_keeps_all<T>(
    s: Seq<T>,
    lt: spec_fn(T, T) -> bool,
    i: int,
    p: spec_fn(T) -> bool,
)
    requires
        forall|k: int| 0 <= k < s.len() ==> p(#[trigger] s[k]),
    ensures
        sift_up(s, lt, i).len() == s.len(),
        forall|k: int| 0 <= k < s.len() ==> p(#[trigger] sift_up(s, lt, i)[k]),
    decreases i,
{
    if 0 < i < s.len() && lt(s[i], s[parent(i)]) {
        let t = swapped(s, i, parent(i));
        assert forall|k: int| 0 <= k < t.len() implies p(#[trigger] t[k]) by {
            assert(p(s[k]) && p(s[i]) && p(s[parent(i)]));
        }
        sift_up_keeps_all(t, lt, parent(i), p);
    }
}

} // verus!
