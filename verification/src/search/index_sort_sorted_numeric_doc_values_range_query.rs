//! Range queries over an index that is sorted by the field of the query.

use std::sync::Arc;

use vstd::prelude::*;
use vstd::set_lib::{lemma_int_range, set_int_range};
use vstd::string::*;

use crate::error::LuceneError;
use crate::search::doc_id_set_iterator::{
    all, empty, range, AllDocIdSetIterator, DocIdSetIterator, DocIds, EmptyDocIdSetIterator,
    RangeDocIdSetIterator, NO_MORE_DOCS,
};
use crate::search::index_searcher::{
    LeafReaderContext, NumClausesCheckVisitor, Query, SearchableQuery, Weight,
};
use crate::search::score_mode::ScoreMode;
use crate::search::weight::ClauseWeight;
use crate::util::text::{append_signed, decimal_int, same_text};

verus! {

/// The documents of an iterator in `[first_doc, last_doc)`.
pub struct BoundedDocIdSetIterator<I: DocIdSetIterator> {
    doc: i32,
    first_doc: i32,
    last_doc: i32,
    delegate: I,
}

/// The elements of `docs` in `[first, last)`.
pub open spec fn bounded(docs: Set<int>, first: int, last: int) -> Set<int> {
    Set::new(|d: int| docs.contains(d) && first <= d < last)
}

impl<I: DocIdSetIterator> BoundedDocIdSetIterator<I> {
    /// Creates an iterator over the documents of `delegate` in
    /// `[first_doc, last_doc)`.
    pub fn new(first_doc: i32, last_doc: i32, delegate: I) -> (r: Self)
        requires
            delegate.inv(),
            delegate.view().valid(),
            delegate.view().doc == -1,
            0 <= first_doc,
            0 <= last_doc,
        ensures
            r.inv(),
            r.infallible() == delegate.infallible(),
            r.view() == (DocIds {
                docs: bounded(delegate.view().docs, first_doc as int, last_doc as int),
                doc: -1,
            }),
            r.reported_cost() == if delegate.reported_cost() < last_doc - first_doc {
                delegate.reported_cost() as int
            } else {
                last_doc - first_doc
            },
    {
        BoundedDocIdSetIterator { doc: -1, first_doc, last_doc, delegate }
    }
}

impl<I: DocIdSetIterator> DocIdSetIterator for BoundedDocIdSetIterator<I> {
    closed spec fn view(&self) -> DocIds {
        DocIds {
            docs: bounded(self.delegate.view().docs, self.first_doc as int, self.last_doc as int),
            doc: self.doc as int,
        }
    }

    closed spec fn inv(&self) -> bool {
        &&& self.delegate.inv()
        &&& self.delegate.view().valid()
        &&& 0 <= self.first_doc
        &&& 0 <= self.last_doc
        &&& self.doc < NO_MORE_DOCS ==> self.doc == self.delegate.view().doc
        &&& self.view().valid()
    }

    closed spec fn infallible(&self) -> bool {
        self.delegate.infallible()
    }

    closed spec fn reported_cost(&self) -> i64 {
        if self.delegate.reported_cost() < self.last_doc - self.first_doc {
            self.delegate.reported_cost()
        } else {
            (self.last_doc - self.first_doc) as i64
        }
    }

    fn doc_id(&self) -> (r: i32) {
        self.doc
    }

    fn next_doc(&mut self) -> (r: Result<i32, LuceneError>) {
        let target: i32 = self.doc + 1;
        self.advance(target)
    }

    fn advance(&mut self, target: i32) -> (r: Result<i32, LuceneError>) {
        let ghost docs = self.view().docs;
        let from: i32 = if target < self.first_doc {
            self.first_doc
        } else {
            target
        };
        let result: i32 = self.delegate.advance(from)?;
        self.doc = if result < self.last_doc {
            result
        } else {
            NO_MORE_DOCS
        };
        proof {
            assert(self.view().docs =~= docs);
            let inner = self.delegate.view().docs;
            assert forall|d: int| #[trigger] docs.contains(d) && d >= target implies d >= result by {
                assert(inner.contains(d));
            }
            if result >= self.last_doc {
                assert forall|d: int| #[trigger] docs.contains(d) implies d < target by {
                    assert(inner.contains(d));
                }
            }
        }
        Ok(self.doc)
    }

    fn cost(&self) -> (r: i64) {
        let cost: i64 = self.delegate.cost();
        let width: i64 = (self.last_doc - self.first_doc) as i64;
        if cost < width {
            cost
        } else {
            width
        }
    }
}

/// A node of a tree of points: a leaf with points, or an inner node with
/// children.
#[derive(Debug)]
pub struct PointNode {
    /// A number that no value of the node is less than.
    pub min: i64,
    /// A number that no value of the node is greater than.
    pub max: i64,
    /// The values of a leaf with their documents, in the order of the values.
    pub points: Vec<(i64, i32)>,
    /// The children of an inner node, in the order of the values.
    pub children: Vec<PointNode>,
}

impl PointNode {
    /// The values of the node with their documents, in order.
    pub open spec fn all_points(self) -> Seq<(i64, i32)>
        decreases self, 0nat,
    {
        if self.children@.len() == 0 {
            self.points@
        } else {
            forest_points(self.children@, self.children@.len())
        }
    }

    /// The bounds of the node and of all nodes below it hold.
    pub open spec fn bounds_hold(self) -> bool
        decreases self, 0nat,
    {
        &&& forall|i: int|
            0 <= i < self.all_points().len() ==> self.min <= (
            #[trigger] self.all_points()[i]).0 <= self.max
        &&& self.children@.len() > 0 ==> forest_bounds_hold(
            self.children@,
            self.children@.len(),
        )
    }
}

/// The values of the first `n` nodes, in order.
pub open spec fn forest_points(nodes: Seq<PointNode>, n: nat) -> Seq<(i64, i32)>
    decreases nodes, n,
{
    if n == 0 || n > nodes.len() {
        Seq::empty()
    } else {
        forest_points(nodes, (n - 1) as nat) + nodes[n - 1].all_points()
    }
}

/// The bounds of the first `n` nodes hold.
pub open spec fn forest_bounds_hold(nodes: Seq<PointNode>, n: nat) -> bool
    decreases nodes, n,
{
    if n == 0 || n > nodes.len() {
        true
    } else {
        forest_bounds_hold(nodes, (n - 1) as nat) && nodes[n - 1].bounds_hold()
    }
}

/// The values are in increasing order.
pub open spec fn points_sorted(points: Seq<(i64, i32)>) -> bool {
    forall|i: int, j: int|
        0 <= i <= j < points.len() ==> (#[trigger] points[i]).0 <= (#[trigger] points[j]).0
}

/// Whether `v` is a value that is searched for.
pub open spec fn qualifies(v: i64, value: i64, allow_equal: bool) -> bool {
    v > value || (v == value && allow_equal)
}

/// The position of the first value that is searched for; the length of `points`
/// when there is none.
pub open spec fn first_qualifying(points: Seq<(i64, i32)>, value: i64, allow_equal: bool, k: int) -> bool {
    &&& 0 <= k <= points.len()
    &&& k < points.len() ==> qualifies(points[k].0, value, allow_equal)
    &&& forall|i: int|
        0 <= i < k ==> !qualifies((#[trigger] points[i]).0, value, allow_equal)
}

/// The position of the last occurrence of `v`.
pub open spec fn last_occurrence(points: Seq<(i64, i32)>, v: i64, k: int) -> bool {
    &&& 0 <= k < points.len()
    &&& points[k].0 == v
    &&& forall|i: int| k < i < points.len() ==> (#[trigger] points[i]).0 != v
}

/// The next value of a tree, and one of its documents.
struct ValueAndDoc {
    value: i64,
    doc_id: i32,
    done: bool,
}

/// What a search for the next value finds: with `last_doc` unset, the first
/// document of the value; otherwise some document of it, which is the last one if
/// the search is done.
spec fn found_in(
    points: Seq<(i64, i32)>,
    value: i64,
    allow_equal: bool,
    last_doc: bool,
    r: Option<ValueAndDoc>,
) -> bool {
    exists|k: int| #[trigger]
        first_qualifying(points, value, allow_equal, k) && match r {
            None => k == points.len(),
            Some(found) => {
                &&& k < points.len()
                &&& found.value == points[k].0
                &&& !last_doc ==> found.doc_id == points[k].1 && !found.done
                &&& exists|j: int|
                    k <= j < points.len() && (#[trigger] points[j]) == (found.value, found.doc_id)
                        && (found.done ==> last_occurrence(points, found.value, j))
            },
        }
}

/// What is found in the first nodes is found with those that follow.
proof fn lemma_found_before(
    a: Seq<(i64, i32)>,
    b: Seq<(i64, i32)>,
    value: i64,
    allow_equal: bool,
    last_doc: bool,
    r: Option<ValueAndDoc>,
)
    requires
        r is Some,
        found_in(a, value, allow_equal, last_doc, r),
        points_sorted(a + b),
        r->0.done ==> exists|i: int|
            0 <= i < a.len() && (#[trigger] a[i]).0 > r->0.value,
    ensures
        found_in(a + b, value, allow_equal, last_doc, r),
{
    let ab = a + b;
    let found = r->0;
    let k = choose|k: int| #[trigger]
        first_qualifying(a, value, allow_equal, k) && k < a.len() && found.value == a[k].0 && (
        !last_doc ==> found.doc_id == a[k].1 && !found.done) && exists|j: int|
            k <= j < a.len() && (#[trigger] a[j]) == (found.value, found.doc_id) && (found.done
                ==> last_occurrence(a, found.value, j));
    assert(first_qualifying(ab, value, allow_equal, k)) by {
        assert forall|i: int| 0 <= i < k implies !qualifies(
            (#[trigger] ab[i]).0,
            value,
            allow_equal,
        ) by {
            assert(ab[i] == a[i]);
        }
    }
    let j = choose|j: int|
        k <= j < a.len() && (#[trigger] a[j]) == (found.value, found.doc_id) && (found.done
            ==> last_occurrence(a, found.value, j));
    assert(ab[j] == a[j]);
    if found.done {
        let m = choose|i: int| 0 <= i < a.len() && (#[trigger] a[i]).0 > found.value;
        assert forall|i: int| j < i < ab.len() implies (#[trigger] ab[i]).0 != found.value by {
            if i < a.len() {
                assert(a[i].0 != found.value);
            } else {
                assert(ab[m] == a[m]);
                assert(ab[m].0 <= ab[i].0);
            }
        }
    }
}

/// What is not found in the first nodes is found in those that follow.
proof fn lemma_found_after(
    a: Seq<(i64, i32)>,
    b: Seq<(i64, i32)>,
    value: i64,
    allow_equal: bool,
    last_doc: bool,
    r: Option<ValueAndDoc>,
)
    requires
        found_in(a, value, allow_equal, last_doc, None),
        found_in(b, value, allow_equal, last_doc, r),
    ensures
        found_in(a + b, value, allow_equal, last_doc, r),
{
    let ab = a + b;
    let n = a.len();
    assert(first_qualifying(a, value, allow_equal, n as int));
    let k = choose|k: int| #[trigger]
        first_qualifying(b, value, allow_equal, k) && match r {
            None => k == b.len(),
            Some(found) => {
                &&& k < b.len()
                &&& found.value == b[k].0
                &&& !last_doc ==> found.doc_id == b[k].1 && !found.done
                &&& exists|j: int|
                    k <= j < b.len() && (#[trigger] b[j]) == (found.value, found.doc_id) && (
                    found.done ==> last_occurrence(b, found.value, j))
            },
        };
    assert(first_qualifying(ab, value, allow_equal, n + k)) by {
        assert forall|i: int| 0 <= i < n + k implies !qualifies(
            (#[trigger] ab[i]).0,
            value,
            allow_equal,
        ) by {
            if i < n {
                assert(ab[i] == a[i]);
            } else {
                assert(ab[i] == b[i - n]);
            }
        }
        if k < b.len() {
            assert(ab[n + k] == b[k]);
        }
    }
    if let Some(found) = r {
        let j = choose|j: int|
            k <= j < b.len() && (#[trigger] b[j]) == (found.value, found.doc_id) && (found.done
                ==> last_occurrence(b, found.value, j));
        assert(ab[n + j] == b[j]);
        if found.done {
            assert forall|i: int| n + j < i < ab.len() implies (#[trigger] ab[i]).0
                != found.value by {
                assert(ab[i] == b[i - n]);
            }
        }
    }
}

proof fn lemma_sorted_parts(a: Seq<(i64, i32)>, b: Seq<(i64, i32)>)
    requires
        points_sorted(a + b),
    ensures
        points_sorted(a),
        points_sorted(b),
{
    let ab = a + b;
    assert forall|i: int, j: int| 0 <= i <= j < a.len() implies (#[trigger] a[i]).0 <= (
    #[trigger] a[j]).0 by {
        assert(ab[i] == a[i] && ab[j] == a[j]);
    }
    assert forall|i: int, j: int| 0 <= i <= j < b.len() implies (#[trigger] b[i]).0 <= (
    #[trigger] b[j]).0 by {
        assert(ab[i + a.len()] == b[i] && ab[j + a.len()] == b[j]);
    }
}

/// The points of all nodes are those of the first `n`, and of the others.
proof fn lemma_forest_split(nodes: Seq<PointNode>, n: nat, m: nat) -> (rest: Seq<(i64, i32)>)
    requires
        n <= m <= nodes.len(),
    ensures
        forest_points(nodes, m) == forest_points(nodes, n) + rest,
    decreases m,
{
    if n == m {
        assert(forest_points(nodes, n) + Seq::<(i64, i32)>::empty() =~= forest_points(nodes, n));
        Seq::empty()
    } else {
        let before = lemma_forest_split(nodes, n, (m - 1) as nat);
        let rest = before + nodes[m - 1].all_points();
        assert(forest_points(nodes, m) =~= forest_points(nodes, n) + rest);
        rest
    }
}

proof fn lemma_forest_bounds(nodes: Seq<PointNode>, n: nat, i: int)
    requires
        forest_bounds_hold(nodes, n),
        0 <= i < n <= nodes.len(),
    ensures
        nodes[i].bounds_hold(),
    decreases n,
{
    if i < n - 1 {
        lemma_forest_bounds(nodes, (n - 1) as nat, i);
    }
}

/// Searches a leaf for the next value.
fn find_in_leaf(points: &[(i64, i32)], value: i64, allow_equal: bool, last_doc: bool) -> (r: Option<
    ValueAndDoc,
>)
    requires
        points_sorted(points@),
    ensures
        found_in(points@, value, allow_equal, last_doc, r),
        r matches Some(found) ==> (found.done ==> exists|i: int|
            0 <= i < points@.len() && (#[trigger] points@[i]).0 > found.value),
{
    let mut found: Option<ValueAndDoc> = None;
    let ghost mut first: int = 0;
    let ghost mut last: int = 0;
    let mut i: usize = 0;
    while i < points.len()
        invariant
            i <= points@.len(),
            points_sorted(points@),
            found is None ==> forall|j: int|
                0 <= j < i ==> !qualifies((#[trigger] points@[j]).0, value, allow_equal),
            found matches Some(f) ==> {
                &&& 0 <= first <= last < i
                &&& first_qualifying(points@, value, allow_equal, first)
                &&& f.value == points@[first].0
                &&& points@[last] == (f.value, f.doc_id)
                &&& !last_doc ==> last == first && !f.done
                &&& last_doc && !f.done ==> last == i - 1
                &&& f.done ==> last_occurrence(points@, f.value, last) && exists|k: int|
                    0 <= k < points@.len() && (#[trigger] points@[k]).0 > f.value
            },
        decreases points.len() - i,
    {
        let (v, doc) = points[i];
        assert(points@[i as int] == (v, doc));
        match found {
            None => {
                if v > value || (v == value && allow_equal) {
                    found = Some(ValueAndDoc { value: v, doc_id: doc, done: false });
                    proof {
                        first = i as int;
                        last = i as int;
                    }
                } else {
                    found = None;
                }
            },
            Some(f) => {
                let mut f = f;
                if last_doc && !f.done {
                    if v > f.value {
                        f.done = true;
                        assert forall|k: int| last < k < points@.len() implies (
                        #[trigger] points@[k]).0 != f.value by {
                            assert(points@[i as int].0 <= points@[k].0);
                        }
                        assert(points@[i as int].0 > f.value);
                    } else {
                        assert(points@[first].0 <= points@[i as int].0);
                        f.doc_id = doc;
                        proof {
                            last = i as int;
                        }
                    }
                }
                found = Some(f);
            },
        }
        i += 1;
    }
    proof {
        if found is None {
            assert(first_qualifying(points@, value, allow_equal, points@.len() as int));
        }
    }
    found
}

/// Searches a tree for the next value.
fn find_next_value(node: &PointNode, value: i64, allow_equal: bool, last_doc: bool) -> (r: Option<
    ValueAndDoc,
>)
    requires
        node.bounds_hold(),
        points_sorted(node.all_points()),
    ensures
        found_in(node.all_points(), value, allow_equal, last_doc, r),
        r matches Some(found) ==> (found.done ==> exists|i: int|
            0 <= i < node.all_points().len() && (#[trigger] node.all_points()[i]).0 > found.value),
    decreases node,
{
    if node.max < value || (node.max == value && !allow_equal) {
        assert(first_qualifying(
            node.all_points(),
            value,
            allow_equal,
            node.all_points().len() as int,
        ));
        return None;
    }
    if node.children.len() == 0 {
        return find_in_leaf(node.points.as_slice(), value, allow_equal, last_doc);
    }
    let ghost nodes = node.children@;
    let ghost all = node.all_points();
    let mut i: usize = 0;
    assert(first_qualifying(forest_points(nodes, 0), value, allow_equal, 0));
    while i < node.children.len()
        invariant
            nodes == node.children@,
            nodes.len() > 0,
            all == node.all_points(),
            all == forest_points(nodes, nodes.len()),
            points_sorted(all),
            forest_bounds_hold(nodes, nodes.len()),
            i <= nodes.len(),
            found_in(forest_points(nodes, i as nat), value, allow_equal, last_doc, None),
        decreases nodes.len() - i,
    {
        let ghost a = forest_points(nodes, i as nat);
        let ghost b = nodes[i as int].all_points();
        let ghost ab = forest_points(nodes, (i + 1) as nat);
        let ghost rest = Seq::<(i64, i32)>::empty();
        proof {
            lemma_forest_bounds(nodes, nodes.len(), i as int);
            rest = lemma_forest_split(nodes, (i + 1) as nat, nodes.len());
            assert(ab == a + b);
            assert(all == ab + rest);
            lemma_sorted_parts(ab, rest);
            lemma_sorted_parts(a, b);
            assert(decreases_to!(node => node.children@[i as int]));
        }
        let found = find_next_value(&node.children[i], value, allow_equal, last_doc);
        proof {
            lemma_found_after(a, b, value, allow_equal, last_doc, found);
            if found is Some {
                let f = found->0;
                if f.done {
                    let k = choose|k: int| 0 <= k < b.len() && (#[trigger] b[k]).0 > f.value;
                    assert(ab[a.len() + k] == b[k]);
                    assert(all[a.len() + k] == b[k]);
                }
                lemma_found_before(ab, rest, value, allow_equal, last_doc, found);
            }
        }
        if found.is_some() {
            return found;
        }
        i += 1;
    }
    None
}

/// Returns the last document with the given value.
fn last_doc_of(node: &PointNode, value: i64) -> (r: Option<i32>)
    requires
        node.bounds_hold(),
    ensures
        match r {
            None => forall|i: int|
                0 <= i < node.all_points().len() ==> (#[trigger] node.all_points()[i]).0 != value,
            Some(doc) => exists|k: int| #[trigger]
                last_occurrence(node.all_points(), value, k) && node.all_points()[k].1 == doc,
        },
    decreases node,
{
    if node.children.len() == 0 {
        let ghost points = node.points@;
        let mut i: usize = node.points.len();
        while i > 0
            invariant
                points == node.points@,
                points == node.all_points(),
                i <= points.len(),
                forall|j: int| i <= j < points.len() ==> (#[trigger] points[j]).0 != value,
            decreases i,
        {
            i -= 1;
            let (v, doc) = node.points[i];
            assert(points[i as int] == (v, doc));
            if v == value {
                assert(last_occurrence(points, value, i as int));
                return Some(doc);
            }
        }
        return None;
    }
    let ghost nodes = node.children@;
    let ghost all = node.all_points();
    let mut i: usize = node.children.len();
    let ghost mut rest: Seq<(i64, i32)> = Seq::empty();
    assert(all =~= forest_points(nodes, i as nat) + rest);
    while i > 0
        invariant
            nodes == node.children@,
            nodes.len() > 0,
            all == node.all_points(),
            forest_bounds_hold(nodes, nodes.len()),
            i <= nodes.len(),
            all == forest_points(nodes, i as nat) + rest,
            forall|j: int| 0 <= j < rest.len() ==> (#[trigger] rest[j]).0 != value,
        decreases i,
    {
        i -= 1;
        let ghost a = forest_points(nodes, i as nat);
        let ghost b = nodes[i as int].all_points();
        proof {
            lemma_forest_bounds(nodes, nodes.len(), i as int);
            assert(all =~= a + (b + rest));
            assert(decreases_to!(node => node.children@[i as int]));
        }
        let found = if node.children[i].min > value {
            None
        } else {
            last_doc_of(&node.children[i], value)
        };
        if let Some(doc) = found {
            proof {
                let k = choose|k: int| #[trigger] last_occurrence(b, value, k) && b[k].1 == doc;
                assert(all[a.len() + k] == b[k]);
                assert(last_occurrence(all, value, a.len() + k)) by {
                    assert forall|j: int| a.len() + k < j < all.len() implies (
                    #[trigger] all[j]).0 != value by {
                        if j < a.len() + b.len() {
                            assert(all[j] == b[j - a.len()]);
                        } else {
                            assert(all[j] == rest[j - a.len() - b.len()]);
                        }
                    }
                }
            }
            return Some(doc);
        }
        proof {
            let next = b + rest;
            assert forall|j: int| 0 <= j < next.len() implies (#[trigger] next[j]).0 != value by {
                if j < b.len() {
                    assert(next[j] == b[j]);
                } else {
                    assert(next[j] == rest[j - b.len()]);
                }
            }
            rest = next;
        }
    }
    proof {
        assert forall|j: int| 0 <= j < all.len() implies (#[trigger] all[j]).0 != value by {
            assert(all[j] == rest[j]);
        }
    }
    None
}

/// `r` is a document of the first value that is searched for: the first one, or
/// the last one where `last_doc` is set; -1 when there is no such value.
pub open spec fn is_next_doc(
    points: Seq<(i64, i32)>,
    value: i64,
    allow_equal: bool,
    last_doc: bool,
    r: i32,
) -> bool {
    exists|k: int| #[trigger]
        first_qualifying(points, value, allow_equal, k) && if k == points.len() {
            r == -1
        } else if last_doc {
            exists|j: int| #[trigger]
                last_occurrence(points, points[k].0, j) && points[j].1 == r
        } else {
            r == points[k].1
        }
}

/// Returns a document of the first value greater than `value`, or equal to it
/// where `allow_equal` is set: the first one, or the last one where `last_doc` is
/// set; -1 when there is no such value.
pub fn next_doc(root: &PointNode, value: i64, allow_equal: bool, last_doc: bool) -> (r: i32)
    requires
        root.bounds_hold(),
        points_sorted(root.all_points()),
    ensures
        is_next_doc(root.all_points(), value, allow_equal, last_doc, r),
{
    let ghost points = root.all_points();
    match find_next_value(root, value, allow_equal, last_doc) {
        None => {
            assert(first_qualifying(points, value, allow_equal, points.len() as int));
            -1
        },
        Some(found) => {
            if !last_doc || found.done {
                return found.doc_id;
            }
            match last_doc_of(root, found.value) {
                Some(doc) => doc,
                None => found.doc_id,
            }
        },
    }
}

/// The values that an index is sorted by.
#[derive(Debug, Clone, Copy, PartialEq, Eq, Structural)]
pub enum SortFieldType {
    /// Integers of 32 bits.
    Int,
    /// Integers of 64 bits.
    Long,
    /// Something else.
    Other,
}

/// The value that stands for a missing one.
#[derive(Debug, Clone, Copy, PartialEq, Eq, Structural)]
pub enum MissingValue {
    /// An integer of 32 bits.
    Int(i32),
    /// An integer of 64 bits.
    Long(i64),
    /// Another number, as the integer that it is rounded to.
    Rounded(i64),
    /// No number.
    Other,
}

/// A field that an index is sorted by.
#[derive(Debug)]
pub struct SortField {
    /// The name of the field, where there is one.
    pub field: Option<String>,
    /// Whether the greatest values come first.
    pub reverse: bool,
    /// The values.
    pub field_type: SortFieldType,
    /// The value that stands for a missing one.
    pub missing: Option<MissingValue>,
}

impl SortField {
    /// The value that stands for a missing one, as an integer.
    pub open spec fn missing_long(&self) -> i64 {
        match self.missing {
            Some(MissingValue::Int(v)) => v as i64,
            Some(MissingValue::Long(v)) => v,
            Some(MissingValue::Rounded(v)) => v,
            _ => 0,
        }
    }

    /// Returns the value that stands for a missing one, as an integer; 0 when there
    /// is none.
    pub fn missing_long_value(&self) -> (r: i64)
        ensures
            r == self.missing_long(),
    {
        match self.missing {
            Some(MissingValue::Int(v)) => v as i64,
            Some(MissingValue::Long(v)) => v,
            Some(MissingValue::Rounded(v)) => v,
            _ => 0,
        }
    }

    /// Whether the index is sorted by integers.
    pub open spec fn is_integer(&self) -> bool {
        self.field_type != SortFieldType::Other
    }

    /// Whether this is the field `name`.
    pub open spec fn is_field(&self, name: Seq<char>) -> bool {
        self.field matches Some(f) && f@ == name
    }
}

/// The points of a field of a leaf.
#[derive(Debug)]
pub struct PointValues {
    /// The number of dimensions of a point.
    pub num_dimensions: i32,
    /// The number of bytes of a value.
    pub bytes_per_dimension: i32,
    /// The number of points.
    pub size: i64,
    /// The number of documents with points.
    pub doc_count: i32,
    /// The least and the greatest value; none without points.
    pub bounds: Option<(i64, i64)>,
    /// The points.
    pub tree: PointNode,
}

/// What a range query reads of a leaf.
#[derive(Debug)]
pub struct SortedLeaf {
    /// The end (exclusive) of the documents.
    pub max_doc: i32,
    /// Whether documents are deleted.
    pub has_deletions: bool,
    /// Whether the documents have at most one value each, which is a number.
    pub single_valued_numeric: bool,
    /// The first field that the leaf is sorted by.
    pub sort_field: Option<SortField>,
    /// The points of the field.
    pub points: Option<PointValues>,
}

impl SortedLeaf {
    /// The points are in order and of documents of the leaf.
    pub open spec fn valid(&self) -> bool {
        &&& self.max_doc >= 0
        &&& self.points matches Some(points) ==> {
            &&& points.tree.bounds_hold()
            &&& points_sorted(points.tree.all_points())
            &&& forall|i: int|
                0 <= i < points.tree.all_points().len() ==> 0 <= (
                #[trigger] points.tree.all_points()[i]).1 < self.max_doc
        }
    }

    /// Whether every document has a point.
    pub open spec fn points_cover_all_docs(&self) -> bool {
        self.points matches Some(points) && points.doc_count == self.max_doc
    }
}

/// The documents that match, and their number where it is known.
#[derive(Debug, Clone, Copy)]
pub enum IteratorAndCount {
    /// No document.
    Empty,
    /// All documents below the given one.
    All(i32),
    /// All documents from the first to the second one (exclusive).
    DenseRange(i32, i32),
    /// The documents with a value from the first to the second one (exclusive).
    SparseRange(i32, i32),
}

impl IteratorAndCount {
    /// The number of documents; -1 when it is not known.
    pub open spec fn known_count(self) -> int {
        match self {
            IteratorAndCount::Empty => 0,
            IteratorAndCount::All(max_doc) => max_doc as int,
            IteratorAndCount::DenseRange(min, max) => max - min,
            IteratorAndCount::SparseRange(min, max) => -1,
        }
    }

    /// The documents, of which those in `with_values` have a value.
    pub open spec fn docs(self, with_values: Set<int>) -> Set<int> {
        match self {
            IteratorAndCount::Empty => Set::empty(),
            IteratorAndCount::All(max_doc) => Set::new(|d: int| 0 <= d < max_doc),
            IteratorAndCount::DenseRange(min, max) => Set::new(|d: int| min <= d < max),
            IteratorAndCount::SparseRange(min, max) => bounded(with_values, min as int, max as int),
        }
    }

    /// The documents are counted without looking at them: the number that is known is that
    /// of the documents, and it is known unless documents may be without a value.
    pub proof fn known_count_is_exact(self, with_values: Set<int>)
        requires
            self matches IteratorAndCount::All(max_doc) ==> 0 <= max_doc,
            self matches IteratorAndCount::DenseRange(min, max) ==> min <= max,
        ensures
            self is SparseRange <==> self.known_count() == -1,
            self !is SparseRange ==> self.docs(with_values).finite() && self.docs(with_values).len()
                == self.known_count(),
    {
        match self {
            IteratorAndCount::All(max_doc) => {
                lemma_int_range(0, max_doc as int);
                assert(self.docs(with_values) =~= set_int_range(0, max_doc as int));
            },
            IteratorAndCount::DenseRange(min, max) => {
                lemma_int_range(min as int, max as int);
                assert(self.docs(with_values) =~= set_int_range(min as int, max as int));
            },
            _ => {},
        }
    }

    /// All documents from `min_doc` to `max_doc` (exclusive).
    ///
    /// # Errors
    ///
    /// [`LuceneError::IllegalArgument`] if `min_doc` is negative or not less than
    /// `max_doc`.
    pub fn dense_range(min_doc: i32, max_doc: i32) -> (r: Result<Self, LuceneError>)
        ensures
            is_dense_range(min_doc as int, max_doc as int, r),
    {
        let _ = range(min_doc, max_doc)?;
        Ok(IteratorAndCount::DenseRange(min_doc, max_doc))
    }

    /// Returns the number of documents; -1 when it is not known.
    pub fn count(&self) -> (r: i32)
        requires
            *self matches IteratorAndCount::DenseRange(min, max) ==> i32::MIN <= max - min
                <= i32::MAX,
        ensures
            r == self.known_count(),
    {
        match *self {
            IteratorAndCount::Empty => 0,
            IteratorAndCount::All(max_doc) => max_doc,
            IteratorAndCount::DenseRange(min, max) => max - min,
            IteratorAndCount::SparseRange(_, _) => -1,
        }
    }
}

/// All documents from `min` to `max` (exclusive), or the error that there are no such
/// documents.
pub open spec fn is_dense_range(
    min: int,
    max: int,
    r: Result<IteratorAndCount, LuceneError>,
) -> bool {
    match r {
        Ok(it) => 0 <= min < max && it == IteratorAndCount::DenseRange(min as i32, max as i32),
        Err(e) => !(0 <= min < max) && e.is_illegal_argument(
            if min >= max {
                "minDoc must be < maxDoc but got minDoc="@ + decimal_int(min) + " maxDoc="@
                    + decimal_int(max)
            } else {
                "minDoc must be >= 0 but got minDoc="@ + decimal_int(min)
            },
        ),
    }
}

/// The values of documents, or those that stand for missing ones.
pub trait ValueLookup {
    /// The value of each document.
    spec fn values(&self) -> Seq<i64>;

    /// Whether reading never fails.
    spec fn infallible(&self) -> bool;

    /// Returns the value of a document.
    ///
    /// # Errors
    ///
    /// Whatever reading the value fails with.
    fn value(&mut self, doc: i32) -> (r: Result<i64, LuceneError>)
        requires
            0 <= doc < old(self).values().len(),
        ensures
            old(self).infallible() ==> r is Ok,
            final(self).infallible() == old(self).infallible(),
            final(self).values() == old(self).values(),
            r matches Ok(v) ==> v == old(self).values()[doc as int],
    ;
}

/// A bound, as a value of the given type.
pub open spec fn as_type(field_type: SortFieldType, v: i64) -> i64 {
    if field_type == SortFieldType::Int {
        (v as i32) as i64
    } else {
        v
    }
}

/// Whether `v` does not come before `bound` in the order of the index; with
/// `strict`, whether it comes after it.
pub open spec fn reaches(reverse: bool, strict: bool, bound: i64, v: i64) -> bool {
    if reverse {
        v < bound || (v == bound && !strict)
    } else {
        v > bound || (v == bound && !strict)
    }
}

/// The values are in the order of the index.
pub open spec fn in_index_order(values: Seq<i64>, reverse: bool) -> bool {
    forall|i: int, j: int|
        0 <= i <= j < values.len() ==> if reverse {
            (#[trigger] values[i]) >= (#[trigger] values[j])
        } else {
            values[i] <= values[j]
        }
}

/// Returns the first document at or after `from` whose value reaches `bound`; the
/// end of the documents when there is none.
fn first_reaching<V: ValueLookup>(
    values: &mut V,
    reverse: bool,
    strict: bool,
    bound: i64,
    from: i32,
    max_doc: i32,
) -> (r: Result<i32, LuceneError>)
    requires
        0 <= from <= max_doc,
        old(values).values().len() == max_doc,
        in_index_order(old(values).values(), reverse),
    ensures
        old(values).infallible() ==> r is Ok,
        final(values).infallible() == old(values).infallible(),
        final(values).values() == old(values).values(),
        r matches Ok(doc) ==> {
            &&& from <= doc <= max_doc
            &&& forall|d: int|
                from <= d < doc ==> !reaches(
                    reverse,
                    strict,
                    bound,
                    #[trigger] old(values).values()[d],
                )
            &&& forall|d: int|
                doc <= d < max_doc ==> reaches(
                    reverse,
                    strict,
                    bound,
                    #[trigger] old(values).values()[d],
                )
        },
{
    let ghost vs = values.values();
    let mut low: i32 = from;
    let mut high: i32 = max_doc - 1;
    while low <= high
        invariant
            vs == old(values).values(),
            values.values() == vs,
            values.infallible() == old(values).infallible(),
            vs.len() == max_doc,
            in_index_order(vs, reverse),
            0 <= from <= low <= max_doc,
            from - 1 <= high < max_doc,
            low <= high + 1,
            forall|d: int| from <= d < low ==> !reaches(reverse, strict, bound, #[trigger] vs[d]),
            forall|d: int|
                high < d < max_doc ==> reaches(reverse, strict, bound, #[trigger] vs[d]),
        decreases high - low + 1,
    {
        let mid: i32 = low + (high - low) / 2;
        let v: i64 = values.value(mid)?;
        let reached: bool = if reverse {
            v < bound || (v == bound && !strict)
        } else {
            v > bound || (v == bound && !strict)
        };
        if reached {
            assert forall|d: int| mid - 1 < d < max_doc implies reaches(
                reverse,
                strict,
                bound,
                #[trigger] vs[d],
            ) by {
                assert(vs[mid as int] == v);
            }
            high = mid - 1;
        } else {
            assert forall|d: int| from <= d < mid + 1 implies !reaches(
                reverse,
                strict,
                bound,
                #[trigger] vs[d],
            ) by {
                assert(vs[mid as int] == v);
            }
            low = mid + 1;
        }
    }
    Ok(high + 1)
}

/// A range query that uses the order of the index where it can, and another query
/// where it cannot.
#[derive(Debug)]
pub struct IndexSortSortedNumericDocValuesRangeQuery<F> {
    /// The field.
    pub field: String,
    /// The least value that matches.
    pub lower: i64,
    /// The greatest value that matches.
    pub upper: i64,
    /// The query that is used where the order of the index is of no use.
    pub fallback_query: F,
}

/// `lo` is the document that the range starts from: the first one with a value of
/// at least `lower`; in reverse order, the last one of the first value above
/// `upper`.
pub open spec fn starts_from(
    points: Seq<(i64, i32)>,
    lower: i64,
    upper: i64,
    reverse: bool,
    lo: i32,
) -> bool {
    is_next_doc(
        points,
        if reverse {
            upper
        } else {
            lower
        },
        !reverse,
        reverse,
        lo,
    )
}

/// `hi` is the document that the range ends with: the first one with a value above
/// `upper`; in reverse order, the last one of the first value of at least `lower`.
pub open spec fn ends_with(
    points: Seq<(i64, i32)>,
    lower: i64,
    upper: i64,
    reverse: bool,
    hi: i32,
) -> bool {
    is_next_doc(
        points,
        if reverse {
            lower
        } else {
            upper
        },
        reverse,
        reverse,
        hi,
    )
}

/// The documents that match, from the points of a leaf; the error where every document
/// has a point and the range starts after its end.
pub open spec fn range_of_points(
    points: Seq<(i64, i32)>,
    lower: i64,
    upper: i64,
    reverse: bool,
    max_doc: i32,
    covers_all: bool,
    r: Result<IteratorAndCount, LuceneError>,
) -> bool {
    exists|lo: i32, hi: i32|
        {
            &&& #[trigger] starts_from(points, lower, upper, reverse, lo)
            &&& #[trigger] ends_with(points, lower, upper, reverse, hi)
            &&& if !reverse && lo == -1 {
                r == Ok::<_, LuceneError>(IteratorAndCount::Empty)
            } else {
                let min = if reverse {
                    lo + 1
                } else {
                    lo as int
                };
                let max = if reverse {
                    hi + 1
                } else if hi == -1 {
                    max_doc as int
                } else {
                    hi as int
                };
                if (reverse && max == 0) || min == max {
                    r == Ok::<_, LuceneError>(IteratorAndCount::Empty)
                } else if covers_all {
                    is_dense_range(min, max, r)
                } else {
                    r == Ok::<_, LuceneError>(
                        IteratorAndCount::SparseRange(min as i32, max as i32),
                    )
                }
            }
        }
}

impl<F: Query> IndexSortSortedNumericDocValuesRangeQuery<F> {
    /// Shows the query to a visitor as a clause, and then the clauses of the query to fall
    /// back to.
    pub fn visit(&self, visitor: &mut NumClausesCheckVisitor)
        requires
            old(visitor).wf(),
        ensures
            final(visitor).wf(),
            final(visitor).limit() == old(visitor).limit(),
            final(visitor).visits() == old(visitor).visits() + 1
                + self.fallback_query.num_clauses(),
    {
        visitor.count_one();
        self.fallback_query.visit(visitor);
    }
}

impl<F> IndexSortSortedNumericDocValuesRangeQuery<F> {
    /// Creates a query for the documents whose value of `field` is in
    /// `[lower_value, upper_value]`.
    pub fn new(field: String, lower_value: i64, upper_value: i64, fallback_query: F) -> (r: Self)
        ensures
            r.field == field,
            r.lower == lower_value,
            r.upper == upper_value,
            r.fallback_query == fallback_query,
    {
        IndexSortSortedNumericDocValuesRangeQuery {
            field,
            lower: lower_value,
            upper: upper_value,
            fallback_query,
        }
    }

    /// Returns the query that is used where the order of the index is of no use.
    pub fn get_fallback_query(&self) -> (r: &F)
        ensures
            *r == self.fallback_query,
    {
        &self.fallback_query
    }

    /// Returns the field.
    pub fn get_field(&self) -> (r: &str)
        ensures
            r@ == self.field@,
    {
        self.field.as_str()
    }

    /// Returns the least value that matches.
    pub fn lower_value(&self) -> (r: i64)
        ensures
            r == self.lower,
    {
        self.lower
    }

    /// Returns the greatest value that matches.
    pub fn upper_value(&self) -> (r: i64)
        ensures
            r == self.upper,
    {
        self.upper
    }

    /// Whether the points of the leaf decide the query.
    pub open spec fn points_usable(&self, leaf: SortedLeaf) -> bool {
        &&& leaf.sort_field matches Some(sort) && sort.is_field(self.field@)
        &&& leaf.points matches Some(points) && points.num_dimensions == 1 && (
        points.bytes_per_dimension == 8 || points.bytes_per_dimension == 4) && points.size
            == points.doc_count
    }

    /// What the points of the leaf say.
    pub open spec fn decided_by_points(
        &self,
        leaf: SortedLeaf,
        r: Result<IteratorAndCount, LuceneError>,
    ) -> bool {
        let points = leaf.points->0;
        let four = points.bytes_per_dimension == 4;
        let lower = if four {
            (self.lower as i32) as i64
        } else {
            self.lower
        };
        let upper = if four {
            (self.upper as i32) as i64
        } else {
            self.upper
        };
        match points.bounds {
            None => r == Ok::<_, LuceneError>(IteratorAndCount::Empty),
            Some((min, max)) => if min > upper || max < lower {
                r == Ok::<_, LuceneError>(IteratorAndCount::Empty)
            } else if min >= lower && max <= upper {
                r == Ok::<_, LuceneError>(
                    if points.doc_count == leaf.max_doc {
                        IteratorAndCount::All(leaf.max_doc)
                    } else {
                        IteratorAndCount::SparseRange(0, leaf.max_doc)
                    },
                )
            } else {
                range_of_points(
                    points.tree.all_points(),
                    lower,
                    upper,
                    leaf.sort_field->0.reverse,
                    leaf.max_doc,
                    points.doc_count == leaf.max_doc,
                    r,
                )
            },
        }
    }

    /// Returns the documents that match, from the points of a leaf; `None` if the
    /// leaf is not sorted by the field, or does not have one point for each
    /// document with points.
    ///
    /// # Errors
    ///
    /// [`LuceneError::IllegalArgument`] if every document has a point, and the range
    /// starts after its end. Bounds that four bytes do not hold are narrowed, which can
    /// put the lower one above the upper one.
    pub fn doc_id_set_iterator_from_bkd(&self, leaf: &SortedLeaf) -> (r: Result<
        Option<IteratorAndCount>,
        LuceneError,
    >)
        requires
            leaf.valid(),
            self.lower <= self.upper,
        ensures
            match r {
                Ok(None) => !self.points_usable(*leaf),
                Ok(Some(it)) => self.points_usable(*leaf) && self.decided_by_points(*leaf, Ok(it)),
                Err(e) => self.points_usable(*leaf) && self.decided_by_points(*leaf, Err(e)),
            },
    {
        let reverse: bool = match &leaf.sort_field {
            None => {
                return Ok(None);
            },
            Some(sort) => {
                if !same_field(&sort.field, &self.field) {
                    return Ok(None);
                }
                sort.reverse
            },
        };
        let points = match &leaf.points {
            None => {
                return Ok(None);
            },
            Some(points) => points,
        };
        if points.num_dimensions != 1 {
            return Ok(None);
        }
        if points.bytes_per_dimension != 8 && points.bytes_per_dimension != 4 {
            return Ok(None);
        }
        if points.size != points.doc_count as i64 {
            return Ok(None);
        }
        let (lower, upper) = if points.bytes_per_dimension == 4 {
            ((self.lower as i32) as i64, (self.upper as i32) as i64)
        } else {
            (self.lower, self.upper)
        };
        match points.bounds {
            None => {
                return Ok(Some(IteratorAndCount::Empty));
            },
            Some((min, max)) => {
                if min > upper || max < lower {
                    return Ok(Some(IteratorAndCount::Empty));
                }
                if min >= lower && max <= upper {
                    return Ok(
                        Some(
                            if points.doc_count == leaf.max_doc {
                                IteratorAndCount::All(leaf.max_doc)
                            } else {
                                IteratorAndCount::SparseRange(0, leaf.max_doc)
                            },
                        ),
                    );
                }
            },
        }
        let ghost all = points.tree.all_points();
        let lo: i32 = next_doc(
            &points.tree,
            if reverse {
                upper
            } else {
                lower
            },
            !reverse,
            reverse,
        );
        let hi: i32 = next_doc(
            &points.tree,
            if reverse {
                lower
            } else {
                upper
            },
            reverse,
            reverse,
        );
        proof {
            lemma_next_doc_in_range(
                all,
                if reverse {
                    upper
                } else {
                    lower
                },
                !reverse,
                reverse,
                lo,
                leaf.max_doc,
            );
            lemma_next_doc_in_range(
                all,
                if reverse {
                    lower
                } else {
                    upper
                },
                reverse,
                reverse,
                hi,
                leaf.max_doc,
            );
        }
        assert(starts_from(all, lower, upper, reverse, lo));
        assert(ends_with(all, lower, upper, reverse, hi));
        if !reverse && lo == -1 {
            return Ok(Some(IteratorAndCount::Empty));
        }
        let min_doc_id: i32 = if reverse {
            lo + 1
        } else {
            lo
        };
        let max_doc_id: i32 = if reverse {
            hi + 1
        } else if hi == -1 {
            leaf.max_doc
        } else {
            hi
        };
        if (reverse && max_doc_id == 0) || min_doc_id == max_doc_id {
            return Ok(Some(IteratorAndCount::Empty));
        }
        if points.doc_count == leaf.max_doc {
            let it = IteratorAndCount::dense_range(min_doc_id, max_doc_id)?;
            Ok(Some(it))
        } else {
            Ok(Some(IteratorAndCount::SparseRange(min_doc_id, max_doc_id)))
        }
    }

    /// The bound that comes first in the order of the index.
    pub open spec fn first_bound(&self, sort: SortField) -> i64 {
        if sort.reverse {
            as_type(sort.field_type, self.upper)
        } else {
            as_type(sort.field_type, self.lower)
        }
    }

    /// The bound that comes second in the order of the index.
    pub open spec fn second_bound(&self, sort: SortField) -> i64 {
        if sort.reverse {
            as_type(sort.field_type, self.lower)
        } else {
            as_type(sort.field_type, self.upper)
        }
    }

    /// The values of `[lo, hi)` are those between the bounds.
    pub open spec fn is_order_range(
        &self,
        sort: SortField,
        values: Seq<i64>,
        lo: int,
        hi: int,
    ) -> bool {
        &&& 0 <= lo <= hi <= values.len()
        &&& is_cut(values, sort.reverse, false, self.first_bound(sort), 0, lo)
        &&& is_cut(values, sort.reverse, true, self.second_bound(sort), lo, hi)
    }

    /// What the order of the values of the leaf says.
    pub open spec fn decided_by_order(
        &self,
        leaf: SortedLeaf,
        values: Seq<i64>,
        r: IteratorAndCount,
    ) -> bool {
        let sort = leaf.sort_field->0;
        exists|lo: int, hi: int|
            {
                &&& #[trigger] self.is_order_range(sort, values, lo, hi)
                &&& if lo == hi {
                    r == IteratorAndCount::Empty
                } else if leaf.points_cover_all_docs() || sort.missing_long() < self.lower
                    || sort.missing_long() > self.upper {
                    r == IteratorAndCount::DenseRange(lo as i32, hi as i32)
                } else {
                    r == IteratorAndCount::SparseRange(lo as i32, hi as i32)
                }
            }
    }

    /// Returns the documents that match, from the order of the values of a leaf
    /// that is sorted by the field.
    ///
    /// # Errors
    ///
    /// Whatever reading the values fails with.
    pub fn doc_id_set_iterator<V: ValueLookup>(&self, leaf: &SortedLeaf, values: &mut V) -> (r:
        Result<IteratorAndCount, LuceneError>)
        requires
            leaf.max_doc >= 0,
            leaf.sort_field is Some,
            leaf.sort_field->0.is_integer(),
            old(values).values().len() == leaf.max_doc,
            in_index_order(old(values).values(), leaf.sort_field->0.reverse),
        ensures
            old(values).infallible() ==> r is Ok,
            final(values).infallible() == old(values).infallible(),
            final(values).values() == old(values).values(),
            r matches Ok(it) ==> self.decided_by_order(*leaf, old(values).values(), it),
    {
        let ghost vs = values.values();
        let (reverse, is_int, missing) = match &leaf.sort_field {
            Some(sort) => (
                sort.reverse,
                sort.field_type == SortFieldType::Int,
                sort.missing_long_value(),
            ),
            None => (false, false, 0),
        };
        let lower: i64 = if reverse {
            self.upper
        } else {
            self.lower
        };
        let upper: i64 = if reverse {
            self.lower
        } else {
            self.upper
        };
        let lower: i64 = if is_int {
            (lower as i32) as i64
        } else {
            lower
        };
        let upper: i64 = if is_int {
            (upper as i32) as i64
        } else {
            upper
        };
        let max_doc: i32 = leaf.max_doc;
        let first: i32 = first_reaching(values, reverse, false, lower, 0, max_doc)?;
        let last: i32 = first_reaching(values, reverse, true, upper, first, max_doc)?;
        proof {
            let sort = leaf.sort_field->0;
            assert(lower == self.first_bound(sort));
            assert(upper == self.second_bound(sort));
            assert(self.is_order_range(sort, vs, first as int, last as int));
        }
        if first == last {
            return Ok(IteratorAndCount::Empty);
        }
        let covers: bool = match &leaf.points {
            Some(points) => points.doc_count == max_doc,
            None => false,
        };
        if covers || missing < self.lower || missing > self.upper {
            Ok(IteratorAndCount::DenseRange(first, last))
        } else {
            Ok(IteratorAndCount::SparseRange(first, last))
        }
    }
}

/// From `from` on, the values before `k` do not reach `bound`, and all others do.
pub open spec fn is_cut(
    values: Seq<i64>,
    reverse: bool,
    strict: bool,
    bound: i64,
    from: int,
    k: int,
) -> bool {
    &&& forall|d: int|
        from <= d < k ==> !reaches(reverse, strict, bound, #[trigger] values[d])
    &&& forall|d: int|
        k <= d < values.len() ==> reaches(reverse, strict, bound, #[trigger] values[d])
}

fn same_field(a: &Option<String>, b: &String) -> (r: bool)
    ensures
        r <==> (*a matches Some(f) && f@ == b@),
{
    match a {
        Some(f) => same_text(f.as_str(), b.as_str()),
        None => false,
    }
}

proof fn lemma_next_doc_in_range(
    points: Seq<(i64, i32)>,
    value: i64,
    allow_equal: bool,
    last_doc: bool,
    r: i32,
    max_doc: i32,
)
    requires
        is_next_doc(points, value, allow_equal, last_doc, r),
        forall|i: int| 0 <= i < points.len() ==> 0 <= (#[trigger] points[i]).1 < max_doc,
    ensures
        -1 <= r < max_doc || r == -1,
{
    let k = choose|k: int| #[trigger]
        first_qualifying(points, value, allow_equal, k) && if k == points.len() {
            r == -1
        } else if last_doc {
            exists|j: int| #[trigger]
                last_occurrence(points, points[k].0, j) && points[j].1 == r
        } else {
            r == points[k].1
        };
    if k < points.len() {
        assert(0 <= points[k].1 < max_doc);
        if last_doc {
            let j = choose|j: int| #[trigger]
                last_occurrence(points, points[k].0, j) && points[j].1 == r;
            assert(0 <= points[j].1 < max_doc);
        }
    }
}

/// What a query is rewritten to.
#[derive(Debug)]
pub enum RangeRewrite<F> {
    /// All documents with a value of the field.
    FieldExists(String),
    /// All documents.
    MatchAll,
    /// The query stays as it is.
    Unchanged,
    /// The query with another query for where the order of the index is of no use.
    Rewritten(IndexSortSortedNumericDocValuesRangeQuery<F>),
}

impl<F> IndexSortSortedNumericDocValuesRangeQuery<F> {
    /// Whether the order of the values of the leaf decides the query.
    pub open spec fn order_usable(&self, leaf: SortedLeaf) -> bool {
        &&& leaf.single_valued_numeric
        &&& leaf.sort_field matches Some(sort) && sort.is_field(self.field@) && sort.is_integer()
    }

    /// The values are those that the leaf is sorted by.
    pub open spec fn reads_order<V: ValueLookup>(&self, leaf: SortedLeaf, values: V) -> bool {
        self.order_usable(leaf) ==> {
            &&& values.values().len() == leaf.max_doc
            &&& in_index_order(values.values(), leaf.sort_field->0.reverse)
        }
    }

    /// Whether `r` is what the points or the order of a leaf say of the documents that
    /// match; `None` where they say nothing.
    pub open spec fn decides<V: ValueLookup>(
        &self,
        leaf: SortedLeaf,
        values: V,
        r: Result<Option<IteratorAndCount>, LuceneError>,
    ) -> bool {
        if self.lower > self.upper {
            r == Ok::<_, LuceneError>(Some(IteratorAndCount::Empty))
        } else if leaf.single_valued_numeric && self.points_usable(leaf) {
            match r {
                Ok(found) => found matches Some(it) && self.decided_by_points(leaf, Ok(it)),
                Err(e) => self.decided_by_points(leaf, Err(e)),
            }
        } else if self.order_usable(leaf) {
            &&& values.infallible() ==> r is Ok
            &&& r matches Ok(found) ==> (found matches Some(it) && self.decided_by_order(
                leaf,
                values.values(),
                it,
            ))
        } else {
            r == Ok::<Option<IteratorAndCount>, LuceneError>(None)
        }
    }

    /// Returns the documents that match, where the points or the order of the leaf
    /// say which they are; `None` otherwise.
    ///
    /// # Errors
    ///
    /// Whatever [`Self::doc_id_set_iterator_from_bkd`] or reading the values fails with.
    pub fn doc_id_set_iterator_or_none<V: ValueLookup>(
        &self,
        leaf: &SortedLeaf,
        values: &mut V,
    ) -> (r: Result<Option<IteratorAndCount>, LuceneError>)
        requires
            leaf.valid(),
            self.reads_order(*leaf, *old(values)),
        ensures
            final(values).infallible() == old(values).infallible(),
            final(values).values() == old(values).values(),
            self.decides(*leaf, *old(values), r),
    {
        if self.lower > self.upper {
            return Ok(Some(IteratorAndCount::Empty));
        }
        if !leaf.single_valued_numeric {
            return Ok(None);
        }
        if let Some(it) = self.doc_id_set_iterator_from_bkd(leaf)? {
            return Ok(Some(it));
        }
        match &leaf.sort_field {
            None => Ok(None),
            Some(sort) => {
                if !same_field(&sort.field, &self.field) {
                    return Ok(None);
                }
                if sort.field_type == SortFieldType::Other {
                    return Ok(None);
                }
                let it = self.doc_id_set_iterator(leaf, values)?;
                Ok(Some(it))
            },
        }
    }

    /// Whether the number of documents that the order of the leaf gives is exact.
    pub open spec fn order_counts(&self, leaf: SortedLeaf) -> bool {
        &&& self.order_usable(leaf)
        &&& leaf.points_cover_all_docs() || leaf.sort_field->0.missing_long() < self.lower
            || leaf.sort_field->0.missing_long() > self.upper
    }

    /// Whether `r` is the number of documents that match, where the points or the order of
    /// a leaf give it; `None` where they do not.
    pub open spec fn counts<V: ValueLookup>(
        &self,
        leaf: SortedLeaf,
        values: V,
        r: Result<Option<i32>, LuceneError>,
    ) -> bool {
        if leaf.has_deletions {
            r == Ok::<Option<i32>, LuceneError>(None)
        } else if self.lower > self.upper {
            r == Ok::<_, LuceneError>(Some(0i32))
        } else if leaf.points_cover_all_docs() && leaf.single_valued_numeric && self.points_usable(
            leaf,
        ) {
            match r {
                Ok(n) => exists|it: IteratorAndCount| #[trigger]
                    self.decided_by_points(leaf, Ok(it)) && it.known_count() >= 0 && n == Some(
                        it.known_count() as i32,
                    ),
                Err(e) => self.decided_by_points(leaf, Err(e)),
            }
        } else if self.order_counts(leaf) {
            &&& values.infallible() ==> r is Ok
            &&& r matches Ok(n) ==> exists|it: IteratorAndCount| #[trigger]
                self.decided_by_order(leaf, values.values(), it) && it.known_count() >= 0 && n
                    == Some(it.known_count() as i32)
        } else {
            r == Ok::<Option<i32>, LuceneError>(None)
        }
    }

    /// Returns the number of documents that match, where the points or the order
    /// of the leaf give it; `None` otherwise.
    ///
    /// # Errors
    ///
    /// Whatever [`Self::doc_id_set_iterator_from_bkd`] or reading the values fails with.
    pub fn count<V: ValueLookup>(&self, leaf: &SortedLeaf, values: &mut V) -> (r: Result<
        Option<i32>,
        LuceneError,
    >)
        requires
            leaf.valid(),
            self.reads_order(*leaf, *old(values)),
        ensures
            final(values).infallible() == old(values).infallible(),
            final(values).values() == old(values).values(),
            self.counts(*leaf, *old(values), r),
    {
        if leaf.has_deletions {
            return Ok(None);
        }
        if self.lower > self.upper {
            return Ok(Some(0));
        }
        let covers: bool = match &leaf.points {
            Some(points) => points.doc_count == leaf.max_doc,
            None => false,
        };
        if covers && leaf.single_valued_numeric {
            if let Some(it) = self.doc_id_set_iterator_from_bkd(leaf)? {
                proof {
                    lemma_points_range_bounds(*self, *leaf, it);
                }
                return Ok(Some(it.count()));
            }
        }
        match &leaf.sort_field {
            None => Ok(None),
            Some(sort) => {
                if !same_field(&sort.field, &self.field) || sort.field_type
                    == SortFieldType::Other {
                    return Ok(None);
                }
                let missing: i64 = sort.missing_long_value();
                if covers || missing < self.lower || missing > self.upper {
                    if leaf.single_valued_numeric {
                        let it = self.doc_id_set_iterator(leaf, values)?;
                        return Ok(Some(it.count()));
                    }
                }
                Ok(None)
            },
        }
    }

    /// Renders the query; the name of its field is left out where it is `field`.
    pub fn to_query_string(&self, field: &str) -> (r: String)
        ensures
            r@ == (if self.field@ == field@ {
                Seq::<char>::empty()
            } else {
                self.field@ + ":"@
            }) + "["@ + decimal_int(self.lower as int) + " TO "@ + decimal_int(self.upper as int)
                + "]"@,
    {
        let mut b = "".to_owned();
        proof {
            reveal_strlit("");
            assert(b@ =~= Seq::<char>::empty());
        }
        if !same_text(self.field.as_str(), field) {
            b.append(self.field.as_str());
            b.append(":");
            assert(b@ =~= self.field@ + ":"@);
        }
        b.append("[");
        append_signed(&mut b, self.lower);
        b.append(" TO ");
        append_signed(&mut b, self.upper);
        b.append("]");
        b
    }

    /// Rewrites the query, given what the query that it falls back to is rewritten
    /// to, and whether the result of that matches all documents.
    pub fn rewrite(self, rewritten_fallback: Option<F>, fallback_matches_all: bool) -> (r:
        RangeRewrite<F>)
        ensures
            r == if self.lower == i64::MIN && self.upper == i64::MAX {
                RangeRewrite::FieldExists(self.field)
            } else if fallback_matches_all {
                RangeRewrite::MatchAll
            } else {
                match rewritten_fallback {
                    None => RangeRewrite::Unchanged,
                    Some(fallback) => RangeRewrite::Rewritten(
                        IndexSortSortedNumericDocValuesRangeQuery {
                            fallback_query: fallback,
                            ..self
                        },
                    ),
                }
            },
    {
        if self.lower == i64::MIN && self.upper == i64::MAX {
            return RangeRewrite::FieldExists(self.field);
        }
        if fallback_matches_all {
            return RangeRewrite::MatchAll;
        }
        match rewritten_fallback {
            None => RangeRewrite::Unchanged,
            Some(fallback) => RangeRewrite::Rewritten(
                Self::new(self.field, self.lower, self.upper, fallback),
            ),
        }
    }

    /// Returns whether two queries are the same, given whether the queries that
    /// they fall back to are.
    pub fn query_eq(&self, other: &Self, same_fallback: bool) -> (r: bool)
        ensures
            r <==> self.field@ == other.field@ && self.lower == other.lower && self.upper
                == other.upper && same_fallback,
    {
        same_text(self.field.as_str(), other.field.as_str()) && self.lower == other.lower
            && self.upper == other.upper && same_fallback
    }
}

/// The matches of a range query in a leaf.
pub enum RangeMatches<P> {
    /// Those that the points or the order of the leaf give.
    Known(IteratorAndCount),
    /// Those that the query to fall back to provides; `None` when there are none.
    Fallback(Option<P>),
}

/// A range query that is prepared for a search.
pub struct IndexSortRangeWeight<F, W> {
    /// The query.
    pub query: Arc<IndexSortSortedNumericDocValuesRangeQuery<F>>,
    /// What the query to fall back to is prepared as.
    pub fallback_weight: Arc<W>,
}

impl<F: SearchableQuery> IndexSortSortedNumericDocValuesRangeQuery<F> {
    /// Prepares a query for a search.
    ///
    /// # Errors
    ///
    /// Whatever preparing the query to fall back to fails with.
    pub fn create_weight(query: Arc<Self>, score_mode: ScoreMode, boost: i32) -> (r: Result<
        IndexSortRangeWeight<F, F::W>,
        LuceneError,
    >)
        ensures
            query.fallback_query.preparable() ==> r is Ok,
            r matches Ok(w) ==> w.query == query && *w.fallback_weight
                == query.fallback_query.weight(score_mode, boost),
    {
        let fallback_weight = query.fallback_query.create_weight(score_mode, boost)?;
        Ok(IndexSortRangeWeight { query, fallback_weight })
    }
}

impl<F, W: ClauseWeight> IndexSortRangeWeight<F, W> {
    /// Returns the matches in a leaf.
    ///
    /// # Errors
    ///
    /// As [`IndexSortSortedNumericDocValuesRangeQuery::doc_id_set_iterator_or_none`]; whatever
    /// the query to fall back to fails with.
    pub fn scorer_supplier<V: ValueLookup>(
        &self,
        context: &LeafReaderContext,
        leaf: &SortedLeaf,
        values: &mut V,
    ) -> (r: Result<RangeMatches<W::P>, LuceneError>)
        requires
            leaf.valid(),
            self.query.reads_order(*leaf, *old(values)),
        ensures
            final(values).infallible() == old(values).infallible(),
            final(values).values() == old(values).values(),
            match r {
                Ok(RangeMatches::Known(it)) => self.query.decides(
                    *leaf,
                    *old(values),
                    Ok(Some(it)),
                ),
                Ok(RangeMatches::Fallback(p)) => self.query.decides(*leaf, *old(values), Ok(None))
                    && self.fallback_weight.supplier(*context) == Ok::<_, LuceneError>(p),
                Err(e) => self.query.decides(*leaf, *old(values), Err(e)) || (self.query.decides(
                    *leaf,
                    *old(values),
                    Ok(None),
                ) && self.fallback_weight.supplier(*context) == Err::<Option<W::P>, _>(e)),
            },
    {
        match self.query.doc_id_set_iterator_or_none(leaf, values) {
            Err(e) => Err(e),
            Ok(Some(it)) => Ok(RangeMatches::Known(it)),
            Ok(None) => match self.fallback_weight.scorer_supplier(context) {
                Ok(p) => Ok(RangeMatches::Fallback(p)),
                Err(e) => Err(e),
            },
        }
    }

    /// Returns whether the matches in a leaf can be cached: when those of the query to fall
    /// back to can, as both are the same.
    pub fn is_cacheable(&self, context: &LeafReaderContext) -> (r: bool)
        ensures
            r == self.fallback_weight.cacheable(*context),
    {
        self.fallback_weight.is_cacheable(context)
    }

    /// Returns the number of documents of a leaf that match: that which the points or the
    /// order of the leaf give, or what the query to fall back to says.
    ///
    /// # Errors
    ///
    /// As [`IndexSortSortedNumericDocValuesRangeQuery::count`]; whatever the query to fall
    /// back to fails with.
    pub fn count<V: ValueLookup>(
        &self,
        context: &LeafReaderContext,
        leaf: &SortedLeaf,
        values: &mut V,
    ) -> (r: Result<i32, LuceneError>)
        requires
            leaf.valid(),
            self.query.reads_order(*leaf, *old(values)),
        ensures
            final(values).infallible() == old(values).infallible(),
            final(values).values() == old(values).values(),
            exists|known: Result<Option<i32>, LuceneError>| #[trigger]
                self.query.counts(*leaf, *old(values), known) && r == match known {
                    Ok(Some(n)) => Ok(n),
                    Ok(None) => self.fallback_weight.counted(*context),
                    Err(e) => Err(e),
                },
    {
        let known = self.query.count(leaf, values);
        assert(self.query.counts(*leaf, *old(values), known));
        match known {
            Ok(Some(n)) => Ok(n),
            Ok(None) => self.fallback_weight.count(context),
            Err(e) => Err(e),
        }
    }
}

/// The range that the points give is a range of documents of the leaf.
proof fn lemma_points_range_bounds<F>(
    q: IndexSortSortedNumericDocValuesRangeQuery<F>,
    leaf: SortedLeaf,
    it: IteratorAndCount,
)
    requires
        leaf.valid(),
        q.points_usable(leaf),
        q.decided_by_points(leaf, Ok(it)),
    ensures
        it matches IteratorAndCount::DenseRange(min, max) ==> 0 <= min < max <= leaf.max_doc,
        it matches IteratorAndCount::SparseRange(min, max) ==> 0 <= min && max <= leaf.max_doc,
        leaf.points_cover_all_docs() ==> it !is SparseRange,
{
    if it is DenseRange || it is SparseRange {
        let points = leaf.points->0;
        let all = points.tree.all_points();
        let four = points.bytes_per_dimension == 4;
        let lower = if four {
            (q.lower as i32) as i64
        } else {
            q.lower
        };
        let upper = if four {
            (q.upper as i32) as i64
        } else {
            q.upper
        };
        let reverse = leaf.sort_field->0.reverse;
        assert forall|lo: i32| #[trigger]
            starts_from(all, lower, upper, reverse, lo) implies -1 <= lo && (lo < leaf.max_doc || lo
            == -1) by {
            lemma_next_doc_in_range(
                all,
                if reverse {
                    upper
                } else {
                    lower
                },
                !reverse,
                reverse,
                lo,
                leaf.max_doc,
            );
        }
        assert forall|hi: i32| #[trigger]
            ends_with(all, lower, upper, reverse, hi) implies -1 <= hi && (hi < leaf.max_doc || hi
            == -1) by {
            lemma_next_doc_in_range(
                all,
                if reverse {
                    lower
                } else {
                    upper
                },
                reverse,
                reverse,
                hi,
                leaf.max_doc,
            );
        }
    }
}

/// The documents of points are in the order of the index: that of the values, and
/// that of the documents for equal values.
pub open spec fn docs_in_index_order(points: Seq<(i64, i32)>, reverse: bool) -> bool {
    forall|i: int, j: int|
        0 <= i < j < points.len() ==> if reverse && (#[trigger] points[i]).0 < (
        #[trigger] points[j]).0 {
            points[i].1 > points[j].1
        } else {
            points[i].1 < points[j].1
        }
}

/// Among the documents with points of an index that is sorted by the field, the
/// range that the points give holds exactly those with a value in
/// `[lower, upper]`.
pub proof fn points_range_is_exact(
    points: Seq<(i64, i32)>,
    lower: i64,
    upper: i64,
    reverse: bool,
    max_doc: i32,
    covers_all: bool,
    r: Result<IteratorAndCount, LuceneError>,
    k: int,
)
    requires
        points_sorted(points),
        docs_in_index_order(points, reverse),
        forall|i: int| 0 <= i < points.len() ==> 0 <= (#[trigger] points[i]).1 < max_doc,
        lower <= upper,
        range_of_points(points, lower, upper, reverse, max_doc, covers_all, r),
        0 <= k < points.len(),
    ensures
        r matches Ok(it) && (it.docs(Set::new(|d: int| true)).contains(points[k].1 as int) <==> lower
            <= points[k].0 <= upper),
{
    let (lo, hi) = choose|lo: i32, hi: i32|
        {
            &&& #[trigger] starts_from(points, lower, upper, reverse, lo)
            &&& #[trigger] ends_with(points, lower, upper, reverse, hi)
            &&& if !reverse && lo == -1 {
                r == Ok::<_, LuceneError>(IteratorAndCount::Empty)
            } else {
                let min = if reverse {
                    lo + 1
                } else {
                    lo as int
                };
                let max = if reverse {
                    hi + 1
                } else if hi == -1 {
                    max_doc as int
                } else {
                    hi as int
                };
                if (reverse && max == 0) || min == max {
                    r == Ok::<_, LuceneError>(IteratorAndCount::Empty)
                } else if covers_all {
                    is_dense_range(min, max, r)
                } else {
                    r == Ok::<_, LuceneError>(
                        IteratorAndCount::SparseRange(min as i32, max as i32),
                    )
                }
            }
        };
    if reverse {
        lemma_last_doc_cut(points, upper, false, lo, k);
        lemma_last_doc_cut(points, lower, true, hi, k);
        lemma_next_doc_in_range(points, upper, false, true, lo, max_doc);
        lemma_next_doc_in_range(points, lower, true, true, hi, max_doc);
    } else {
        lemma_first_doc_cut(points, lower, true, lo, k);
        lemma_first_doc_cut(points, upper, false, hi, k);
    }
}

/// In the order of the index, the documents from the first one with a value that
/// is searched for on are those with such values.
proof fn lemma_first_doc_cut(
    points: Seq<(i64, i32)>,
    value: i64,
    allow_equal: bool,
    r: i32,
    k: int,
)
    requires
        points_sorted(points),
        docs_in_index_order(points, false),
        is_next_doc(points, value, allow_equal, false, r),
        forall|i: int| 0 <= i < points.len() ==> 0 <= (#[trigger] points[i]).1,
        0 <= k < points.len(),
    ensures
        r == -1 ==> !qualifies(points[k].0, value, allow_equal),
        r != -1 ==> (points[k].1 >= r <==> qualifies(points[k].0, value, allow_equal)),
{
    let q = choose|q: int| #[trigger]
        first_qualifying(points, value, allow_equal, q) && if q == points.len() {
            r == -1
        } else {
            r == points[q].1
        };
    if q < points.len() {
        if k < q {
            assert(points[k].1 < points[q].1);
        } else if k > q {
            assert(points[q].1 < points[k].1);
            assert(points[q].0 <= points[k].0);
        }
    }
}

/// In the reverse order of the index, the documents up to the last one of the
/// first value that is searched for are those with such values.
proof fn lemma_last_doc_cut(
    points: Seq<(i64, i32)>,
    value: i64,
    allow_equal: bool,
    r: i32,
    k: int,
)
    requires
        points_sorted(points),
        docs_in_index_order(points, true),
        is_next_doc(points, value, allow_equal, true, r),
        forall|i: int| 0 <= i < points.len() ==> 0 <= (#[trigger] points[i]).1,
        0 <= k < points.len(),
    ensures
        points[k].1 <= r <==> qualifies(points[k].0, value, allow_equal),
{
    let q = choose|q: int| #[trigger]
        first_qualifying(points, value, allow_equal, q) && if q == points.len() {
            r == -1
        } else {
            exists|j: int| #[trigger]
                last_occurrence(points, points[q].0, j) && points[j].1 == r
        };
    if q < points.len() {
        let j = choose|j: int| #[trigger]
            last_occurrence(points, points[q].0, j) && points[j].1 == r;
        if k < q {
            assert(points[k].0 <= points[q].0);
            assert(points[k].0 < points[j].0);
            if k < j {
                assert(points[k].1 > points[j].1);
            } else {
                assert(points[j].0 <= points[k].0);
            }
        } else {
            assert(points[q].0 <= points[k].0);
            if k < j {
                assert(points[k].0 <= points[j].0);
                assert(points[k].1 < points[j].1);
            } else if k > j {
                assert(points[j].0 <= points[k].0);
                assert(points[k].0 != points[j].0);
                assert(points[j].1 > points[k].1);
            }
        }
    }
}

/// In an index that is sorted by the field, the range that the order gives holds
/// exactly the documents whose value, or the one that stands for it, is between
/// the bounds.
pub proof fn order_range_is_exact<F>(
    q: IndexSortSortedNumericDocValuesRangeQuery<F>,
    sort: SortField,
    values: Seq<i64>,
    lo: int,
    hi: int,
    d: int,
)
    requires
        q.is_order_range(sort, values, lo, hi),
        as_type(sort.field_type, q.lower) <= as_type(sort.field_type, q.upper),
        in_index_order(values, sort.reverse),
        0 <= d < values.len(),
    ensures
        lo <= d < hi <==> as_type(sort.field_type, q.lower) <= values[d] <= as_type(
            sort.field_type,
            q.upper,
        ),
{
    let first = q.first_bound(sort);
    let second = q.second_bound(sort);
    if d < lo {
        assert(!reaches(sort.reverse, false, first, values[d]));
    } else {
        assert(reaches(sort.reverse, false, first, values[d]));
        if d < hi {
            assert(!reaches(sort.reverse, true, second, values[d]));
        } else {
            assert(reaches(sort.reverse, true, second, values[d]));
        }
    }
}

/// The documents that match, as an iterator.
pub enum IndexSortIterator<D: DocIdSetIterator> {
    /// No document.
    Empty(EmptyDocIdSetIterator),
    /// All documents.
    All(AllDocIdSetIterator),
    /// All documents of a range.
    Range(RangeDocIdSetIterator),
    /// The documents of a range that have a value.
    Bounded(BoundedDocIdSetIterator<D>),
}

impl IteratorAndCount {
    /// Returns the documents as an iterator; `delegate` is over the documents with
    /// a value.
    ///
    /// # Errors
    ///
    /// [`LuceneError::IllegalArgument`] if a range is not valid.
    pub fn into_iterator<D: DocIdSetIterator>(self, delegate: D) -> (r: Result<
        IndexSortIterator<D>,
        LuceneError,
    >)
        requires
            delegate.inv(),
            delegate.view().valid(),
            delegate.view().doc == -1,
            self matches IteratorAndCount::SparseRange(min, max) ==> 0 <= min && 0 <= max,
        ensures
            r is Ok <==> match self {
                IteratorAndCount::All(max_doc) => max_doc >= 0,
                IteratorAndCount::DenseRange(min, max) => 0 <= min < max,
                _ => true,
            },
            r matches Err(e) ==> e.is_illegal_argument(
                match self {
                    IteratorAndCount::All(max_doc) => "maxDoc must be >= 0, but got maxDoc="@
                        + decimal_int(max_doc as int),
                    IteratorAndCount::DenseRange(min, max) => if min >= max {
                        "minDoc must be < maxDoc but got minDoc="@ + decimal_int(min as int)
                            + " maxDoc="@ + decimal_int(max as int)
                    } else {
                        "minDoc must be >= 0 but got minDoc="@ + decimal_int(min as int)
                    },
                    _ => Seq::empty(),
                },
            ),
            r matches Ok(it) ==> {
                &&& it.inv()
                &&& it.view().doc == -1
                &&& it.view().docs == self.docs(delegate.view().docs)
                &&& it.infallible() <==> (self is SparseRange ==> delegate.infallible())
                &&& it.range_end() == match self {
                    IteratorAndCount::Empty => Some(0),
                    IteratorAndCount::All(max_doc) => Some(max_doc as int),
                    IteratorAndCount::DenseRange(min, max) => Some(max as int),
                    IteratorAndCount::SparseRange(min, max) => None,
                }
            },
    {
        match self {
            IteratorAndCount::Empty => {
                let it = empty();
                assert(it.view().docs =~= self.docs(delegate.view().docs));
                Ok(IndexSortIterator::Empty(it))
            },
            IteratorAndCount::All(max_doc) => {
                let it = all(max_doc)?;
                assert(it.view().docs =~= self.docs(delegate.view().docs));
                Ok(IndexSortIterator::All(it))
            },
            IteratorAndCount::DenseRange(min, max) => {
                let it = range(min, max)?;
                assert(it.view().docs =~= self.docs(delegate.view().docs));
                Ok(IndexSortIterator::Range(it))
            },
            IteratorAndCount::SparseRange(min, max) => Ok(
                IndexSortIterator::Bounded(BoundedDocIdSetIterator::new(min, max, delegate)),
            ),
        }
    }
}

impl<D: DocIdSetIterator> IndexSortIterator<D> {
    /// The end (exclusive) of the documents, where all documents of a range match.
    pub open spec fn range_end(&self) -> Option<int> {
        match self {
            IndexSortIterator::Empty(_) => Some(0),
            IndexSortIterator::All(it) => Some(it.max_doc()),
            IndexSortIterator::Range(it) => Some(it.max_doc()),
            IndexSortIterator::Bounded(_) => None,
        }
    }
}

impl<D: DocIdSetIterator> DocIdSetIterator for IndexSortIterator<D> {
    closed spec fn view(&self) -> DocIds {
        match *self {
            IndexSortIterator::Empty(it) => it.view(),
            IndexSortIterator::All(it) => it.view(),
            IndexSortIterator::Range(it) => it.view(),
            IndexSortIterator::Bounded(it) => it.view(),
        }
    }

    closed spec fn inv(&self) -> bool {
        match *self {
            IndexSortIterator::Empty(it) => it.inv(),
            IndexSortIterator::All(it) => it.inv(),
            IndexSortIterator::Range(it) => it.inv(),
            IndexSortIterator::Bounded(it) => it.inv(),
        }
    }

    closed spec fn infallible(&self) -> bool {
        match *self {
            IndexSortIterator::Bounded(it) => it.infallible(),
            _ => true,
        }
    }

    closed spec fn reported_cost(&self) -> i64 {
        match *self {
            IndexSortIterator::Empty(it) => it.reported_cost(),
            IndexSortIterator::All(it) => it.reported_cost(),
            IndexSortIterator::Range(it) => it.reported_cost(),
            IndexSortIterator::Bounded(it) => it.reported_cost(),
        }
    }

    fn doc_id(&self) -> (r: i32) {
        match self {
            IndexSortIterator::Empty(it) => it.doc_id(),
            IndexSortIterator::All(it) => it.doc_id(),
            IndexSortIterator::Range(it) => it.doc_id(),
            IndexSortIterator::Bounded(it) => it.doc_id(),
        }
    }

    fn next_doc(&mut self) -> (r: Result<i32, LuceneError>)
        ensures
            final(self).range_end() == old(self).range_end(),
    {
        match self {
            IndexSortIterator::Empty(it) => it.next_doc(),
            IndexSortIterator::All(it) => it.next_doc(),
            IndexSortIterator::Range(it) => it.next_doc(),
            IndexSortIterator::Bounded(it) => it.next_doc(),
        }
    }

    fn advance(&mut self, target: i32) -> (r: Result<i32, LuceneError>)
        ensures
            final(self).range_end() == old(self).range_end(),
    {
        match self {
            IndexSortIterator::Empty(it) => it.advance(target),
            IndexSortIterator::All(it) => it.advance(target),
            IndexSortIterator::Range(it) => it.advance(target),
            IndexSortIterator::Bounded(it) => it.advance(target),
        }
    }

    fn cost(&self) -> (r: i64) {
        match self {
            IndexSortIterator::Empty(it) => it.cost(),
            IndexSortIterator::All(it) => it.cost(),
            IndexSortIterator::Range(it) => it.cost(),
            IndexSortIterator::Bounded(it) => it.cost(),
        }
    }

    /// Returns the end of the range where all of its documents match, and the document
    /// after the current one otherwise.
    fn doc_id_run_end(&self) -> (r: Result<i32, LuceneError>)
        ensures
            r matches Ok(end) && end == match self.range_end() {
                Some(max_doc) => max_doc,
                None => self.view().doc + 1,
            },
    {
        match self {
            IndexSortIterator::Empty(it) => it.doc_id_run_end(),
            IndexSortIterator::All(it) => it.doc_id_run_end(),
            IndexSortIterator::Range(it) => it.doc_id_run_end(),
            IndexSortIterator::Bounded(it) => it.doc_id_run_end(),
        }
    }
}

impl IteratorAndCount {
    /// The documents are none, all below a document, or those of a range: all of them, or only
    /// those that have a value.
    pub proof fn documents_are_those_of_the_range(self, with_values: Set<int>, d: int)
        ensures
            self.docs(with_values).contains(d) <==> match self {
                IteratorAndCount::Empty => false,
                IteratorAndCount::All(max_doc) => 0 <= d < max_doc,
                IteratorAndCount::DenseRange(min, max) => min <= d < max,
                IteratorAndCount::SparseRange(min, max) => min <= d < max && with_values.contains(
                    d,
                ),
            },
    {
    }
}

proof fn lemma_forest_is_flat(nodes: Seq<PointNode>, n: nat)
    requires
        n <= nodes.len(),
    ensures
        forest_points(nodes, n) == nodes.take(n as int).map_values(
            |c: PointNode| c.all_points(),
        ).flatten(),
    decreases n,
{
    let part = nodes.take(n as int).map_values(|c: PointNode| c.all_points());
    part.lemma_flatten_and_flatten_alt_are_equivalent();
    if n > 0 {
        lemma_forest_is_flat(nodes, (n - 1) as nat);
        let before = nodes.take(n - 1).map_values(|c: PointNode| c.all_points());
        assert(part.drop_last() =~= before);
        before.lemma_flatten_and_flatten_alt_are_equivalent();
    } else {
        assert(part =~= Seq::empty());
    }
}

impl PointNode {
    /// The points of a leaf are those that it holds, and the points of an inner node are those of
    /// its children, one child after the other.
    pub proof fn points_are_those_of_the_leaves(self)
        ensures
            self.children@.len() == 0 ==> self.all_points() == self.points@,
            self.children@.len() > 0 ==> self.all_points() == self.children@.map_values(
                |c: PointNode| c.all_points(),
            ).flatten(),
    {
        if self.children@.len() > 0 {
            lemma_forest_is_flat(self.children@, self.children@.len());
            assert(self.children@.take(self.children@.len() as int) =~= self.children@);
        }
    }
}

impl<F> IndexSortSortedNumericDocValuesRangeQuery<F> {
    proof fn lemma_decided_by_points(
        &self,
        leaf: SortedLeaf,
        it: IteratorAndCount,
        with_values: Set<int>,
        k: int,
    )
        requires
            leaf.valid(),
            self.lower <= self.upper,
            leaf.points is Some,
            leaf.sort_field is Some,
            self.decided_by_points(leaf, Ok(it)),
            docs_in_index_order(leaf.points->0.tree.all_points(), leaf.sort_field->0.reverse),
            leaf.points->0.bytes_per_dimension == 4 ==> i32::MIN <= self.lower && self.upper
                <= i32::MAX,
            0 <= k < leaf.points->0.tree.all_points().len(),
            leaf.points->0.bounds matches Some((min, max)) && min
                <= leaf.points->0.tree.all_points()[k].0 <= max,
            with_values.contains(leaf.points->0.tree.all_points()[k].1 as int),
        ensures
            it.docs(with_values).contains(leaf.points->0.tree.all_points()[k].1 as int)
                <==> self.lower <= leaf.points->0.tree.all_points()[k].0 <= self.upper,
    {
        let points = leaf.points->0;
        let all = points.tree.all_points();
        let (min, max) = points.bounds->0;
        if !(min > self.upper || max < self.lower) && !(min >= self.lower && max <= self.upper) {
            points_range_is_exact(
                all,
                self.lower,
                self.upper,
                leaf.sort_field->0.reverse,
                leaf.max_doc,
                points.doc_count == leaf.max_doc,
                Ok(it),
                k,
            );
        }
    }

    /// From the points of a leaf that is sorted by the field, a document with a point is found
    /// exactly when the value of the point is in `[lower, upper]`, whether the bounds of the points
    /// or their tree decide it. The leaf is asked to be in the order of the index, with points
    /// within their bounds; bounds of the query that four bytes do not hold are left out where the
    /// points have four bytes.
    pub proof fn matches_from_points_are_exact(
        &self,
        leaf: &SortedLeaf,
        it: IteratorAndCount,
        with_values: Set<int>,
        k: int,
    )
        requires
            leaf.valid(),
            self.lower <= self.upper,
            call_ensures(
                IndexSortSortedNumericDocValuesRangeQuery::<F>::doc_id_set_iterator_from_bkd,
                (self, leaf),
                Ok(Some(it)),
            ),
            leaf.points matches Some(points) && leaf.sort_field matches Some(sort) && {
                let all = points.tree.all_points();
                &&& forall|i: int, j: int|
                    0 <= i < j < all.len() ==> if sort.reverse && (#[trigger] all[i]).0 < (
                    #[trigger] all[j]).0 {
                        all[i].1 > all[j].1
                    } else {
                        all[i].1 < all[j].1
                    }
                &&& points.bytes_per_dimension == 4 ==> i32::MIN <= self.lower && self.upper
                    <= i32::MAX
                &&& 0 <= k < all.len()
                &&& points.bounds matches Some((min, max)) && min <= all[k].0 <= max
                &&& with_values.contains(all[k].1 as int)
            },
        ensures
            ({
                let (v, d) = leaf.points->0.tree.all_points()[k];
                (match it {
                    IteratorAndCount::Empty => false,
                    IteratorAndCount::All(max_doc) => 0 <= d < max_doc,
                    IteratorAndCount::DenseRange(min, max) => min <= d < max,
                    IteratorAndCount::SparseRange(min, max) => min <= d < max
                        && with_values.contains(d as int),
                }) <==> self.lower <= v <= self.upper
            }),
    {
        self.lemma_decided_by_points(*leaf, it, with_values, k);
        it.documents_are_those_of_the_range(
            with_values,
            leaf.points->0.tree.all_points()[k].1 as int,
        );
    }

    /// The points of a leaf that is sorted by the field decide which documents match whenever there
    /// is one point of one dimension, of four or eight bytes, for each document with points; where
    /// the range fits the bytes, nothing fails.
    pub proof fn points_decide_when_they_can(
        &self,
        leaf: &SortedLeaf,
        r: Result<Option<IteratorAndCount>, LuceneError>,
    )
        requires
            leaf.valid(),
            self.lower <= self.upper,
            call_ensures(
                IndexSortSortedNumericDocValuesRangeQuery::<F>::doc_id_set_iterator_from_bkd,
                (self, leaf),
                r,
            ),
        ensures
            r == Ok::<Option<IteratorAndCount>, LuceneError>(None) <==> !{
                &&& leaf.sort_field matches Some(sort) && sort.field matches Some(name) && name@
                    == self.field@
                &&& leaf.points matches Some(points) && points.num_dimensions == 1 && (
                points.bytes_per_dimension == 4 || points.bytes_per_dimension == 8) && points.size
                    == points.doc_count
            },
            leaf.sort_field is Some && leaf.points is Some && docs_in_index_order(
                leaf.points->0.tree.all_points(),
                leaf.sort_field->0.reverse,
            ) && leaf.points->0.tree.all_points().len() > 0 && (leaf.points->0.bytes_per_dimension
                == 4 ==> i32::MIN <= self.lower && self.upper <= i32::MAX) ==> r is Ok,
    {
        if leaf.sort_field is Some && leaf.points is Some && docs_in_index_order(
            leaf.points->0.tree.all_points(),
            leaf.sort_field->0.reverse,
        ) && leaf.points->0.tree.all_points().len() > 0 && (leaf.points->0.bytes_per_dimension
            == 4 ==> i32::MIN <= self.lower && self.upper <= i32::MAX) {
            if let Err(e) = r {
                points_range_is_exact(
                    leaf.points->0.tree.all_points(),
                    self.lower,
                    self.upper,
                    leaf.sort_field->0.reverse,
                    leaf.max_doc,
                    leaf.points->0.doc_count == leaf.max_doc,
                    Err(e),
                    0,
                );
            }
        }
    }

    /// From the order of a leaf that is sorted by the field, a document is found exactly when it
    /// has a value and the value is in `[lower, upper]`. `with_values` are the documents that have
    /// a value; for each of the others the value that stands for a missing one is read.
    pub proof fn matches_from_order_are_exact(
        &self,
        leaf: SortedLeaf,
        values: Seq<i64>,
        it: IteratorAndCount,
        with_values: Set<int>,
        d: int,
    )
        requires
            self.decided_by_order(leaf, values, it),
            self.lower <= self.upper,
            values.len() == leaf.max_doc,
            leaf.sort_field matches Some(sort) && {
                &&& sort.field_type == SortFieldType::Int ==> i32::MIN <= self.lower && self.upper
                    <= i32::MAX
                &&& forall|i: int, j: int|
                    0 <= i <= j < values.len() ==> if sort.reverse {
                        (#[trigger] values[i]) >= (#[trigger] values[j])
                    } else {
                        values[i] <= values[j]
                    }
                &&& forall|i: int|
                    0 <= i < values.len() && !with_values.contains(i) ==> (#[trigger] values[i])
                        == match sort.missing {
                        Some(MissingValue::Int(v)) => v as int,
                        Some(MissingValue::Long(v)) => v as int,
                        Some(MissingValue::Rounded(v)) => v as int,
                        Some(MissingValue::Other) => 0,
                        None => 0,
                    }
            },
            leaf.points matches Some(points) && points.doc_count == leaf.max_doc ==> forall|i: int|
                0 <= i < leaf.max_doc ==> with_values.contains(i),
        ensures
            (match it {
                IteratorAndCount::Empty => false,
                IteratorAndCount::All(max_doc) => 0 <= d < max_doc,
                IteratorAndCount::DenseRange(min, max) => min <= d < max,
                IteratorAndCount::SparseRange(min, max) => min <= d < max && with_values.contains(d),
            }) <==> 0 <= d < leaf.max_doc && with_values.contains(d) && self.lower <= values[d]
                <= self.upper,
            it.docs(with_values).contains(d) <==> 0 <= d < leaf.max_doc && with_values.contains(d)
                && self.lower <= values[d] <= self.upper,
            it.known_count() >= 0 || it is SparseRange,
    {
        let sort = leaf.sort_field->0;
        let (lo, hi) = choose|lo: int, hi: int|
            {
                &&& #[trigger] self.is_order_range(sort, values, lo, hi)
                &&& if lo == hi {
                    it == IteratorAndCount::Empty
                } else if leaf.points_cover_all_docs() || sort.missing_long() < self.lower
                    || sort.missing_long() > self.upper {
                    it == IteratorAndCount::DenseRange(lo as i32, hi as i32)
                } else {
                    it == IteratorAndCount::SparseRange(lo as i32, hi as i32)
                }
            };
        if 0 <= d < leaf.max_doc {
            order_range_is_exact(*self, sort, values, lo, hi, d);
        }
        it.documents_are_those_of_the_range(with_values, d);
    }

    /// Where the points or the order of a leaf decide the query, the documents are those that have
    /// a value in `[lower, upper]`, and a count is their number. `with_values` are the documents
    /// that have a value and `matching` those whose value is in the range. The leaf is asked to be
    /// in the order of the index, with one point within their bounds for each document that has a
    /// value.
    pub proof fn decisions_are_exact<V: ValueLookup>(
        &self,
        leaf: SortedLeaf,
        values: V,
        it: IteratorAndCount,
        with_values: Set<int>,
        matching: Set<int>,
    )
        requires
            leaf.valid(),
            self.decides(leaf, values, Ok(Some(it))),
            forall|d: int| #[trigger]
                matching.contains(d) <==> 0 <= d < leaf.max_doc && with_values.contains(d)
                    && self.lower <= values.values()[d] <= self.upper,
            values.values().len() == leaf.max_doc,
            leaf.sort_field matches Some(sort) ==> {
                &&& sort.field_type == SortFieldType::Int ==> i32::MIN <= self.lower && self.upper
                    <= i32::MAX
                &&& forall|i: int, j: int|
                    0 <= i <= j < leaf.max_doc ==> if sort.reverse {
                        (#[trigger] values.values()[i]) >= (#[trigger] values.values()[j])
                    } else {
                        values.values()[i] <= values.values()[j]
                    }
                &&& forall|i: int|
                    0 <= i < leaf.max_doc && !with_values.contains(i) ==> (
                    #[trigger] values.values()[i]) == match sort.missing {
                        Some(MissingValue::Int(v)) => v as int,
                        Some(MissingValue::Long(v)) => v as int,
                        Some(MissingValue::Rounded(v)) => v as int,
                        Some(MissingValue::Other) => 0,
                        None => 0,
                    }
            },
            leaf.points matches Some(points) ==> {
                let all = points.tree.all_points();
                &&& points.doc_count == leaf.max_doc ==> forall|i: int|
                    0 <= i < leaf.max_doc ==> with_values.contains(i)
                &&& leaf.sort_field matches Some(sort) ==> forall|i: int, j: int|
                    0 <= i < j < all.len() ==> if sort.reverse && (#[trigger] all[i]).0 < (
                    #[trigger] all[j]).0 {
                        all[i].1 > all[j].1
                    } else {
                        all[i].1 < all[j].1
                    }
                &&& points.bytes_per_dimension == 4 ==> i32::MIN <= self.lower && self.upper
                    <= i32::MAX
                &&& forall|k: int|
                    0 <= k < all.len() ==> {
                        &&& points.bounds matches Some((min, max)) && min <= (
                        #[trigger] all[k]).0 <= max
                        &&& with_values.contains(all[k].1 as int)
                        &&& values.values()[all[k].1 as int] == all[k].0
                    }
                &&& forall|d: int|
                    0 <= d < leaf.max_doc && #[trigger] with_values.contains(d) ==> exists|k: int|
                        0 <= k < all.len() && (#[trigger] all[k]).1 == d
            },
        ensures
            forall|d: int|
                #![trigger matching.contains(d)]
                (match it {
                    IteratorAndCount::Empty => false,
                    IteratorAndCount::All(max_doc) => 0 <= d < max_doc,
                    IteratorAndCount::DenseRange(min, max) => min <= d < max,
                    IteratorAndCount::SparseRange(min, max) => min <= d < max
                        && with_values.contains(d),
                }) <==> matching.contains(d),
            it.known_count() >= 0 ==> matching.finite() && matching.len() == it.known_count(),
    {
        assert forall|d: int| #[trigger] matching.contains(d) == it.docs(with_values).contains(
            d,
        ) by {
            if self.lower > self.upper {
            } else if leaf.single_valued_numeric && self.points_usable(leaf) {
                let all = leaf.points->0.tree.all_points();
                if 0 <= d < leaf.max_doc && with_values.contains(d) {
                    let k = choose|k: int| 0 <= k < all.len() && (#[trigger] all[k]).1 == d;
                    self.lemma_decided_by_points(leaf, it, with_values, k);
                } else {
                    self.lemma_decided_documents(leaf, it, with_values, d);
                }
            } else {
                self.matches_from_order_are_exact(leaf, values.values(), it, with_values, d);
            }
        }
        assert(matching =~= it.docs(with_values));
        if it.known_count() >= 0 {
            if self.lower > self.upper {
            } else if leaf.single_valued_numeric && self.points_usable(leaf) {
                lemma_points_range_bounds(*self, leaf, it);
            } else {
                assert(it matches IteratorAndCount::DenseRange(min, max) ==> min <= max);
            }
            it.known_count_is_exact(with_values);
        }
    }

    /// Where the points or the order of a leaf give the number of documents that match, it is the
    /// number of those that have a value in `[lower, upper]`; it is not given for a leaf with
    /// deletions, and it is 0 where no value can be in the range. What is asked of the leaf is what
    /// [`Self::decisions_are_exact`] asks.
    pub proof fn counts_are_exact<V: ValueLookup>(
        &self,
        leaf: SortedLeaf,
        values: V,
        r: Result<Option<i32>, LuceneError>,
        with_values: Set<int>,
        matching: Set<int>,
    )
        requires
            leaf.valid(),
            self.counts(leaf, values, r),
            forall|d: int| #[trigger]
                matching.contains(d) <==> 0 <= d < leaf.max_doc && with_values.contains(d)
                    && self.lower <= values.values()[d] <= self.upper,
            values.values().len() == leaf.max_doc,
            leaf.sort_field matches Some(sort) ==> {
                &&& sort.field_type == SortFieldType::Int ==> i32::MIN <= self.lower && self.upper
                    <= i32::MAX
                &&& forall|i: int, j: int|
                    0 <= i <= j < leaf.max_doc ==> if sort.reverse {
                        (#[trigger] values.values()[i]) >= (#[trigger] values.values()[j])
                    } else {
                        values.values()[i] <= values.values()[j]
                    }
                &&& forall|i: int|
                    0 <= i < leaf.max_doc && !with_values.contains(i) ==> (
                    #[trigger] values.values()[i]) == match sort.missing {
                        Some(MissingValue::Int(v)) => v as int,
                        Some(MissingValue::Long(v)) => v as int,
                        Some(MissingValue::Rounded(v)) => v as int,
                        Some(MissingValue::Other) => 0,
                        None => 0,
                    }
            },
            leaf.points matches Some(points) ==> {
                let all = points.tree.all_points();
                &&& points.doc_count == leaf.max_doc ==> forall|i: int|
                    0 <= i < leaf.max_doc ==> with_values.contains(i)
                &&& leaf.sort_field matches Some(sort) ==> forall|i: int, j: int|
                    0 <= i < j < all.len() ==> if sort.reverse && (#[trigger] all[i]).0 < (
                    #[trigger] all[j]).0 {
                        all[i].1 > all[j].1
                    } else {
                        all[i].1 < all[j].1
                    }
                &&& points.bytes_per_dimension == 4 ==> i32::MIN <= self.lower && self.upper
                    <= i32::MAX
                &&& forall|k: int|
                    0 <= k < all.len() ==> {
                        &&& points.bounds matches Some((min, max)) && min <= (
                        #[trigger] all[k]).0 <= max
                        &&& with_values.contains(all[k].1 as int)
                        &&& values.values()[all[k].1 as int] == all[k].0
                    }
                &&& forall|d: int|
                    0 <= d < leaf.max_doc && #[trigger] with_values.contains(d) ==> exists|k: int|
                        0 <= k < all.len() && (#[trigger] all[k]).1 == d
            },
        ensures
            r matches Ok(Some(n)) ==> matching.finite() && n == matching.len(),
            leaf.has_deletions ==> r == Ok::<Option<i32>, LuceneError>(None),
            !leaf.has_deletions && self.lower > self.upper ==> r == Ok::<Option<i32>, LuceneError>(
                Some(0i32),
            ),
            !leaf.has_deletions && r == Ok::<Option<i32>, LuceneError>(None) ==> {
                ||| !leaf.single_valued_numeric
                ||| !(leaf.sort_field matches Some(sort) && sort.field matches Some(name) && name@
                    == self.field@)
                ||| !(leaf.points matches Some(points) && points.doc_count == leaf.max_doc)
                ||| leaf.sort_field->0.field_type == SortFieldType::Other
            },
    {
        if leaf.has_deletions {
        } else if self.lower > self.upper {
            assert(matching =~= Set::empty());
        } else if leaf.points_cover_all_docs() && leaf.single_valued_numeric && self.points_usable(
            leaf,
        ) {
            if let Ok(n) = r {
                let it = choose|it: IteratorAndCount| #[trigger]
                    self.decided_by_points(leaf, Ok(it)) && it.known_count() >= 0 && n == Some(
                        it.known_count() as i32,
                    );
                lemma_points_range_bounds(*self, leaf, it);
                assert(self.decides(leaf, values, Ok(Some(it))));
                self.decisions_are_exact(leaf, values, it, with_values, matching);
            }
        } else if self.order_counts(leaf) {
            if let Ok(n) = r {
                let it = choose|it: IteratorAndCount| #[trigger]
                    self.decided_by_order(leaf, values.values(), it) && it.known_count() >= 0 && n
                        == Some(it.known_count() as i32);
                assert forall|d: int| #[trigger]
                    matching.contains(d) == it.docs(with_values).contains(d) by {
                    self.matches_from_order_are_exact(leaf, values.values(), it, with_values, d);
                }
                assert(matching =~= it.docs(with_values));
                it.known_count_is_exact(with_values);
            }
        }
    }

    proof fn lemma_decided_documents(
        &self,
        leaf: SortedLeaf,
        it: IteratorAndCount,
        with_values: Set<int>,
        d: int,
    )
        requires
            leaf.valid(),
            self.points_usable(leaf),
            self.decided_by_points(leaf, Ok(it)),
            leaf.points->0.doc_count == leaf.max_doc ==> forall|i: int|
                0 <= i < leaf.max_doc ==> with_values.contains(i),
        ensures
            it.docs(with_values).contains(d) ==> 0 <= d < leaf.max_doc && with_values.contains(d),
    {
        lemma_points_range_bounds(*self, leaf, it);
    }
}

} // verus!
