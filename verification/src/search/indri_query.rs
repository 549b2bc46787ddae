//! Queries that are made of clauses which each have a part in the score.

use std::sync::Arc;

use vstd::prelude::*;
use vstd::std_specs::iter::IteratorSpec;
use vstd::string::*;

use crate::search::index_searcher::NumClausesCheckVisitor;
use crate::search::query::{QueryKind, QueryNode};

verus! {

/// How a clause takes part in a query.
#[derive(Debug, Clone, Copy, PartialEq, Eq, Structural)]
pub enum Occur {
    /// It must match.
    MUST,
    /// It must match, without a part in the score.
    FILTER,
    /// It should match.
    SHOULD,
    /// It must not match.
    MUST_NOT,
}

impl Occur {
    /// The mark in front of a clause.
    pub open spec fn mark(self) -> Seq<char> {
        match self {
            Occur::MUST => "+"@,
            Occur::FILTER => "#"@,
            Occur::SHOULD => ""@,
            Occur::MUST_NOT => "-"@,
        }
    }

    /// Returns the mark in front of a clause.
    pub fn as_str(self) -> (r: &'static str)
        ensures
            r@ == self.mark(),
    {
        match self {
            Occur::MUST => "+",
            Occur::FILTER => "#",
            Occur::SHOULD => "",
            Occur::MUST_NOT => "-",
        }
    }
}

/// A clause of a query.
pub struct BooleanClause<Q> {
    /// The query.
    pub query: Arc<Q>,
    /// How it takes part.
    pub occur: Occur,
}

impl<Q> BooleanClause<Q> {
    /// Whether documents have to match the clause.
    pub open spec fn required(self) -> bool {
        self.occur == Occur::MUST || self.occur == Occur::FILTER
    }

    /// Returns whether documents have to match the clause.
    pub fn is_required(&self) -> (r: bool)
        ensures
            r == self.required(),
    {
        self.occur == Occur::MUST || self.occur == Occur::FILTER
    }
}

/// The clauses of a query.
pub struct IndriQuery<Q> {
    /// The clauses.
    pub clauses: Vec<BooleanClause<Q>>,
}

/// The rendering of a clause, with brackets around a boolean query.
pub open spec fn clause_text<Q: QueryNode>(clause: BooleanClause<Q>, field: Seq<char>) -> Seq<char> {
    clause.occur.mark() + if clause.query.node_kind() == QueryKind::Boolean {
        "("@ + clause.query.rendered(field) + ")"@
    } else {
        clause.query.rendered(field)
    }
}

/// The rendering of the first `n` clauses of a query, each but the last of the query followed
/// by a space.
pub open spec fn clauses_text<Q: QueryNode>(
    clauses: Seq<BooleanClause<Q>>,
    field: Seq<char>,
    n: int,
) -> Seq<char>
    decreases n,
{
    if n <= 0 {
        Seq::empty()
    } else {
        clauses_text(clauses, field, n - 1) + clause_text(clauses[n - 1], field) + if n
            < clauses.len() {
            " "@
        } else {
            Seq::empty()
        }
    }
}

impl<Q: QueryNode> IndriQuery<Q> {
    /// Creates a query of the given clauses.
    pub fn new(clauses: Vec<BooleanClause<Q>>) -> (r: Self)
        ensures
            r.clauses == clauses,
    {
        IndriQuery { clauses }
    }

    /// Returns the clauses.
    pub fn get_clauses(&self) -> (r: &[BooleanClause<Q>])
        ensures
            r@ == self.clauses@,
    {
        self.clauses.as_slice()
    }

    /// Returns an iterator over the clauses.
    pub fn iter(&self) -> (r: std::slice::Iter<'_, BooleanClause<Q>>)
        ensures
            IteratorSpec::remaining(&r) == self.clauses@.as_ref(),
    {
        broadcast use vstd::std_specs::slice::axiom_spec_slice_iter;

        self.clauses.as_slice().iter()
    }

    /// Renders the query; `field` is left out of the rendering.
    pub fn to_query_string(&self, field: &str) -> (r: String)
        ensures
            r@ == clauses_text(self.clauses@, field@, self.clauses@.len() as int),
    {
        let n: usize = self.clauses.len();
        let mut buffer = String::new();
        let mut i: usize = 0;
        assert(buffer@ =~= Seq::empty());
        while i < n
            invariant
                n == self.clauses@.len(),
                i <= n,
                buffer@ == clauses_text(self.clauses@, field@, i as int),
            decreases n - i,
        {
            let ghost before = buffer@;
            let clause = &self.clauses[i];
            buffer.append(clause.occur.as_str());
            let text = clause.query.to_query_string(field);
            if clause.query.kind() == QueryKind::Boolean {
                buffer.append("(");
                buffer.append(text.as_str());
                buffer.append(")");
            } else {
                buffer.append(text.as_str());
            }
            assert(buffer@ =~= before + clause_text(self.clauses@[i as int], field@));
            if i != n - 1 {
                buffer.append(" ");
            }
            assert(buffer@ =~= clauses_text(self.clauses@, field@, i + 1));
            i += 1;
        }
        buffer
    }

    /// Shows the query to a visitor as a single clause.
    pub fn visit(&self, visitor: &mut NumClausesCheckVisitor)
        requires
            old(visitor).wf(),
        ensures
            final(visitor).wf(),
            final(visitor).limit() == old(visitor).limit(),
            final(visitor).visits() == old(visitor).visits() + 1,
    {
        visitor.count_one();
    }

    /// Returns whether two queries have equal clauses in the same order.
    pub fn base_eq(&self, other: &Self) -> (r: bool)
        ensures
            r <==> self.clauses@.len() == other.clauses@.len() && forall|i: int|
                0 <= i < self.clauses@.len() ==> (#[trigger] self.clauses@[i]).occur
                    == other.clauses@[i].occur && self.clauses@[i].query.equals(
                    &*other.clauses@[i].query,
                ),
    {
        if self.clauses.len() != other.clauses.len() {
            return false;
        }
        let mut i: usize = 0;
        while i < self.clauses.len()
            invariant
                i <= self.clauses@.len(),
                self.clauses@.len() == other.clauses@.len(),
                forall|j: int|
                    0 <= j < i ==> (#[trigger] self.clauses@[j]).occur == other.clauses@[j].occur
                        && self.clauses@[j].query.equals(&*other.clauses@[j].query),
            decreases self.clauses.len() - i,
        {
            let a = &self.clauses[i];
            let b = &other.clauses[i];
            if a.occur != b.occur || !a.query.query_eq(&*b.query) {
                assert(!(self.clauses@[i as int].occur == other.clauses@[i as int].occur
                    && self.clauses@[i as int].query.equals(&*other.clauses@[i as int].query)));
                return false;
            }
            i += 1;
        }
        true
    }

    /// Returns the hash of the query for the hash of its clauses; it is not 0.
    pub fn base_hash(&self, hash_code: u64) -> (r: u64)
        ensures
            r == if hash_code == 0 {
                1
            } else {
                hash_code
            },
    {
        if hash_code == 0 {
            1
        } else {
            hash_code
        }
    }
}

} // verus!
