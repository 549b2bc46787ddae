//! What queries that are made of other queries need to know of them.

use std::sync::Arc;

use vstd::prelude::*;

use crate::search::index_searcher::Query;

verus! {

/// The kinds of queries that others treat in their own way.
#[derive(Debug, Clone, Copy, PartialEq, Eq, Structural)]
pub enum QueryKind {
    /// Matches every document.
    MatchAllDocs,
    /// Matches no document.
    MatchNoDocs,
    /// Is made of clauses that must, should or must not match.
    Boolean,
    /// Any other query.
    Other,
}

/// A query that can be a part of another query.
pub trait QueryNode: Query {
    /// What [`Self::kind`] returns.
    spec fn node_kind(&self) -> QueryKind;

    /// What [`Self::to_query_string`] returns.
    spec fn rendered(&self, field: Seq<char>) -> Seq<char>;

    /// Whether two queries are equal.
    spec fn equals(&self, other: &Self) -> bool;

    /// Returns the kind of the query.
    fn kind(&self) -> (r: QueryKind)
        ensures
            r == self.node_kind(),
    ;

    /// Renders the query; `field` is left out of the rendering.
    fn to_query_string(&self, field: &str) -> (r: String)
        ensures
            r@ == self.rendered(field@),
    ;

    /// Returns whether two queries are equal.
    fn query_eq(&self, other: &Self) -> (r: bool)
        ensures
            r == self.equals(other),
    ;
}

/// The number of queries among the first `n` that equal `q`.
pub open spec fn occurrences<Q: QueryNode>(queries: Seq<Arc<Q>>, n: int, q: Q) -> nat
    decreases n,
{
    if n <= 0 {
        0
    } else {
        occurrences(queries, n - 1, q) + if queries[n - 1].equals(&q) {
            1nat
        } else {
            0
        }
    }
}

/// Whether each query occurs as often among one as among the others.
pub open spec fn same_queries<Q: QueryNode>(a: Seq<Arc<Q>>, b: Seq<Arc<Q>>) -> bool {
    &&& a.len() == b.len()
    &&& forall|i: int|
        0 <= i < a.len() ==> occurrences(a, a.len() as int, *#[trigger] a[i]) == occurrences(
            b,
            b.len() as int,
            *a[i],
        )
}

fn count_occurrences<Q: QueryNode>(queries: &Vec<Arc<Q>>, q: &Q) -> (r: usize)
    ensures
        r == occurrences(queries@, queries@.len() as int, *q),
{
    let mut count: usize = 0;
    let mut i: usize = 0;
    while i < queries.len()
        invariant
            i <= queries@.len(),
            count <= i,
            count == occurrences(queries@, i as int, *q),
        decreases queries.len() - i,
    {
        if queries[i].query_eq(q) {
            count += 1;
        }
        i += 1;
    }
    count
}

/// Returns whether each query occurs as often among one as among the others.
pub fn equal_queries<Q: QueryNode>(a: &Vec<Arc<Q>>, b: &Vec<Arc<Q>>) -> (r: bool)
    ensures
        r == same_queries(a@, b@),
{
    if a.len() != b.len() {
        return false;
    }
    let mut i: usize = 0;
    while i < a.len()
        invariant
            i <= a@.len(),
            a@.len() == b@.len(),
            forall|j: int|
                0 <= j < i ==> occurrences(a@, a@.len() as int, *#[trigger] a@[j]) == occurrences(
                    b@,
                    b@.len() as int,
                    *a@[j],
                ),
        decreases a.len() - i,
    {
        if count_occurrences(a, &a[i]) != count_occurrences(b, &a[i]) {
            assert(occurrences(a@, a@.len() as int, *a@[i as int]) != occurrences(
                b@,
                b@.len() as int,
                *a@[i as int],
            ));
            return false;
        }
        i += 1;
    }
    true
}

/// The renderings of the first `n` queries, with `separator` between them.
pub open spec fn joined(parts: Seq<Seq<char>>, separator: Seq<char>, n: int) -> Seq<char>
    decreases n,
{
    if n <= 0 {
        Seq::empty()
    } else if n == 1 {
        parts[0]
    } else {
        joined(parts, separator, n - 1) + separator + parts[n - 1]
    }
}

proof fn lemma_occurrences<Q: QueryNode>(queries: Seq<Arc<Q>>, n: int, q: Q)
    requires
        forall|a: Q, b: Q| #[trigger] a.equals(&b) <==> a == b,
        0 <= n <= queries.len(),
    ensures
        occurrences(queries, n, q) == queries.take(n).to_multiset().count(Arc::new(q)),
    decreases n,
{
    broadcast use vstd::seq_lib::group_to_multiset_ensures;

    if n > 0 {
        lemma_occurrences(queries, n - 1, q);
        assert(queries.take(n) =~= queries.take(n - 1).push(queries[n - 1]));
        assert(queries[n - 1] == Arc::new(q) <==> *queries[n - 1] == q);
    } else {
        assert(queries.take(0) =~= Seq::empty());
    }
}

/// Where only the same queries are equal, two lists hold each query as often exactly when they are
/// the same but for the order.
pub proof fn equal_lists_differ_in_order_only<Q: QueryNode>(a: Seq<Arc<Q>>, b: Seq<Arc<Q>>)
    requires
        forall|a: Q, b: Q| #[trigger] a.equals(&b) <==> a == b,
    ensures
        same_queries(a, b) <==> a.to_multiset() == b.to_multiset(),
{
    broadcast use vstd::seq_lib::group_to_multiset_ensures;
    broadcast use vstd::multiset::group_multiset_axioms;

    assert(a.take(a.len() as int) =~= a);
    assert(b.take(b.len() as int) =~= b);
    assert forall|q: Q| #[trigger]
        occurrences(a, a.len() as int, q) == a.to_multiset().count(Arc::new(q)) by {
        lemma_occurrences(a, a.len() as int, q);
    }
    assert forall|q: Q| #[trigger]
        occurrences(b, b.len() as int, q) == b.to_multiset().count(Arc::new(q)) by {
        lemma_occurrences(b, b.len() as int, q);
    }
    if a.to_multiset() == b.to_multiset() {
        assert(a.len() == a.to_multiset().len());
        assert(b.len() == b.to_multiset().len());
    }
    if same_queries(a, b) {
        assert forall|x: Arc<Q>| #[trigger]
            a.to_multiset().count(x) <= b.to_multiset().count(x) by {
            assert(x == Arc::new(*x));
            if a.to_multiset().count(x) > 0 {
                assert(a.contains(x));
                let i = choose|i: int| 0 <= i < a.len() && a[i] == x;
                assert(occurrences(a, a.len() as int, *a[i]) == occurrences(
                    b,
                    b.len() as int,
                    *a[i],
                ));
            }
        }
        assert(a.to_multiset().subset_of(b.to_multiset()));
        let rest = b.to_multiset().sub(a.to_multiset());
        assert(b.to_multiset() =~= a.to_multiset().add(rest));
        assert(rest.len() == 0);
        assert(b.to_multiset() =~= a.to_multiset()) by {
            assert forall|x: Arc<Q>| b.to_multiset().count(x) == a.to_multiset().count(x) by {
                assert(rest.count(x) == 0) by {
                    if rest.count(x) > 0 {
                        assert(rest.remove(x).insert(x) =~= rest);
                    }
                }
            }
        }
    }
}

/// What is joined are the parts in order: nothing without parts, a single part as it is, and for
/// more of them the first ones joined, the separator, and the others joined.
pub proof fn parts_are_joined_in_order(
    parts: Seq<Seq<char>>,
    separator: Seq<char>,
    k: int,
    n: int,
)
    requires
        0 <= n <= parts.len(),
    ensures
        joined(parts, separator, 0) == Seq::<char>::empty(),
        n > 0 ==> joined(parts, separator, 1) == parts[0],
        0 < k < n ==> joined(parts, separator, n) == joined(parts, separator, k) + separator
            + joined(parts.skip(k), separator, n - k),
    decreases n,
{
    if 0 < k < n {
        if k < n - 1 {
            parts_are_joined_in_order(parts, separator, k, n - 1);
            assert(parts.skip(k)[n - k - 1] == parts[n - 1]);
            assert(joined(parts, separator, n) =~= joined(parts, separator, k) + separator
                + joined(parts.skip(k), separator, n - k));
        } else {
            assert(parts.skip(k)[0] == parts[n - 1]);
        }
    }
}

} // verus!
