//! Ranges of positions.

use vstd::prelude::*;

verus! {

/// The positions `[from, to)`.
pub open spec fn position_range(from: int, to: int) -> Seq<usize> {
    Seq::new((to - from) as nat, |i: int| (from + i) as usize)
}

/// `s` lists the positions `[from, to)` once each.
pub open spec fn lists_range(s: Seq<usize>, from: int, to: int) -> bool {
    &&& s.no_duplicates()
    &&& forall|p: usize| s.contains(p) <==> from <= p < to
}

/// A permutation lists the same positions.
pub proof fn lists_range_permuted(a: Seq<usize>, b: Seq<usize>, from: int, to: int)
    requires
        lists_range(a, from, to),
        a.to_multiset() == b.to_multiset(),
    ensures
        lists_range(b, from, to),
        a.len() == b.len(),
{
    broadcast use vstd::seq_lib::group_to_multiset_ensures;

    a.lemma_multiset_has_no_duplicates();
    b.lemma_multiset_has_no_duplicates_conv();
    assert forall|p: usize| b.contains(p) <==> from <= p < to by {
        assert(a.contains(p) <==> a.to_multiset().count(p) > 0);
        assert(b.contains(p) <==> b.to_multiset().count(p) > 0);
    }
    assert(a.len() == a.to_multiset().len());
    assert(b.len() == b.to_multiset().len());
}

/// The listed positions are in the range.
pub proof fn lists_range_bounds(s: Seq<usize>, from: int, to: int)
    requires
        lists_range(s, from, to),
    ensures
        forall|i: int| 0 <= i < s.len() ==> from <= #[trigger] s[i] < to,
{
    assert forall|i: int| 0 <= i < s.len() implies from <= #[trigger] s[i] < to by {
        assert(s.contains(s[i]));
    }
}

/// Returns the positions `[from, to)` in increasing order.
pub fn positions(from: usize, to: usize) -> (r: Vec<usize>)
    requires
        from <= to,
    ensures
        r@ == position_range(from as int, to as int),
{
    let mut r: Vec<usize> = Vec::with_capacity(to - from);
    let mut p: usize = from;
    while p < to
        invariant
            from <= p <= to,
            r@ =~= position_range(from as int, p as int),
        decreases to - p,
    {
        r.push(p);
        p += 1;
    }
    r
}

} // verus!
