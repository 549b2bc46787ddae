//! Answering queries for many terms by the values of documents.

use std::sync::Arc;

use vstd::prelude::*;
use vstd::string::*;

use crate::error::LuceneError;
use crate::search::disjunction_matches_iterator::{
    found_views, from_terms_enum, joined, BytesRefIterator, TermPostings,
    TermsEnumDisjunctionMatchesIterator,
};
use crate::search::doc_values::{ascending, DocValues, DocValuesSkipper, SkipBlocks};
use crate::search::doc_values_access::FoundValues;
use crate::search::doc_values_range_iterator::{
    any_of, is_contiguous, iterates_over, iterates_over_nothing, DocValuesRangeIterator,
    MANY_VALUES_COST,
};
use crate::search::index_searcher::NumClausesCheckVisitor;
use crate::search::leaf_reader::{DocValuesType, LeafReader};
use crate::search::matches::{MatchView, MatchesIterator};
use crate::search::query::QueryNode;

verus! {

/// A query for many terms of a field.
pub trait MultiTermQuery: QueryNode {
    /// The field.
    spec fn field_name(&self) -> Seq<char>;

    /// Returns the field.
    fn get_field(&self) -> (r: &str)
        ensures
            r@ == self.field_name(),
    ;
}

/// Rewrites queries for many terms to ones that are answered by the values of documents.
#[derive(Debug, Clone, Copy)]
pub struct DocValuesRewriteMethod;

impl DocValuesRewriteMethod {
    /// Rewrites a query; all matches of the result have the same score.
    pub fn rewrite<M: MultiTermQuery>(&self, query: Arc<M>) -> (r: MultiTermQueryDocValuesWrapper<M>)
        ensures
            r.query == query,
    {
        MultiTermQueryDocValuesWrapper::new(query)
    }

    /// Returns the hash of the method for the hash of its type.
    pub fn method_hash(&self, type_hash: u64) -> (r: u64)
        ensures
            r == type_hash.wrapping_add(641),
    {
        type_hash.wrapping_add(641)
    }
}

/// A query for many terms that is answered by the values of documents.
pub struct MultiTermQueryDocValuesWrapper<M> {
    /// The query.
    pub query: Arc<M>,
}

impl<M: MultiTermQuery> MultiTermQueryDocValuesWrapper<M> {
    /// Shows the query to a visitor, which counts neither it nor the query that it wraps.
    pub fn visit(&self, visitor: &mut NumClausesCheckVisitor)
        ensures
            *final(visitor) == *old(visitor),
    {
    }

    /// Wraps a query.
    pub fn new(query: Arc<M>) -> (r: Self)
        ensures
            r.query == query,
    {
        MultiTermQueryDocValuesWrapper { query }
    }

    /// Returns the field.
    pub fn get_field(&self) -> (r: &str)
        ensures
            r@ == self.query.field_name(),
    {
        self.query.get_field()
    }

    /// Renders the query; `field` is left out of the rendering.
    pub fn to_query_string(&self, field: &str) -> (r: String)
        ensures
            r@ == self.query.rendered(field@),
    {
        self.query.to_query_string(field)
    }

    /// Returns whether two queries wrap equal ones.
    pub fn query_eq(&self, other: &Self) -> (r: bool)
        ensures
            r == self.query.equals(&*other.query),
    {
        self.query.query_eq(&*other.query)
    }

    /// Returns the hash of the query for the hashes of its type and of the wrapped query.
    pub fn query_hash(&self, class_hash: u64, inner_hash: u64) -> (r: u64)
        ensures
            r == 31u64.wrapping_mul(class_hash).wrapping_add(inner_hash),
    {
        31u64.wrapping_mul(class_hash).wrapping_add(inner_hash)
    }

    /// Returns the terms of the documents of a leaf, several for each document or one, or none
    /// whatever the field stores.
    ///
    /// # Errors
    ///
    /// Whatever reading the leaf fails with.
    pub fn get_sorted_set<R: LeafReader>(&self, reader: &R) -> (r: Result<
        FoundValues<R::I>,
        LuceneError,
    >)
        ensures
            r == match reader.values(self.query.field_name(), DocValuesType::SORTED_SET) {
                Err(e) => Err(e),
                Ok(Some(values)) => Ok(FoundValues::Values(values)),
                Ok(None) => match reader.values(self.query.field_name(), DocValuesType::SORTED) {
                    Err(e) => Err(e),
                    Ok(Some(values)) => Ok(FoundValues::Singleton(values)),
                    Ok(None) => Ok(FoundValues::Empty),
                },
            },
    {
        let field: &str = self.query.get_field();
        match reader.get_doc_values(field, DocValuesType::SORTED_SET) {
            Err(e) => Err(e),
            Ok(Some(values)) => Ok(FoundValues::Values(values)),
            Ok(None) => match reader.get_doc_values(field, DocValuesType::SORTED) {
                Err(e) => Err(e),
                Ok(Some(values)) => Ok(FoundValues::Singleton(values)),
                Ok(None) => Ok(FoundValues::Empty),
            },
        }
    }

    /// Returns the positions of the matches in a document, of which `terms` are the terms
    /// of the query and `postings` finds the positions of a term; `None` when it does not
    /// match.
    ///
    /// # Errors
    ///
    /// Whatever reading the terms or their positions fails with.
    pub fn matches<T: BytesRefIterator, L: TermPostings>(&self, terms: T, postings: L) -> (r:
        Result<Option<TermsEnumDisjunctionMatchesIterator<T, L>>, LuceneError>)
        requires
            terms.inv(),
            2 * terms.remaining().len() <= usize::MAX,
        ensures
            terms.infallible() && postings.infallible() ==> r is Ok,
            r matches Ok(found) ==> (found is None <==> found_views(
                postings,
                terms.remaining(),
            ).len() == 0),
            r matches Ok(Some(it)) ==> {
                &&& it.inv()
                &&& it.view() == (MatchView {
                    current: None,
                    rest: joined(found_views(postings, terms.remaining())),
                    ended: false,
                })
            },
    {
        from_terms_enum(terms, postings)
    }

    /// Returns whether the matches in a leaf can be cached, which is not so when the values of
    /// the field have been changed.
    pub fn is_cacheable<R: LeafReader>(&self, reader: &R) -> (r: bool)
        ensures
            r == match reader.info(self.query.field_name()) {
                Some(info) => info.doc_values_gen <= -1,
                None => true,
            },
    {
        match reader.field_info(self.query.get_field()) {
            Some(info) => info.doc_values_gen <= -1,
            None => true,
        }
    }

    /// Returns what provides the matches in a leaf: `None` when no document has a value.
    /// `ordinals` are the ordinals of the terms of the query among the `value_count` terms of
    /// the leaf.
    pub fn scorer_supplier(&self, ordinals: Vec<i64>, value_count: i64, cost: i64) -> (r: Option<
        DocValuesScorerSupplier,
    >)
        ensures
            r is None <==> value_count == 0,
            r matches Some(s) ==> s.ordinals == Some(ordinals) && s.value_count == value_count
                && s.cost == cost,
    {
        if value_count == 0 {
            return None;
        }
        Some(DocValuesScorerSupplier { ordinals: Some(ordinals), value_count, cost })
    }
}

/// Provides the documents of a leaf that have one of the terms of a query.
pub struct DocValuesScorerSupplier {
    /// The ordinals of the terms; `None` once an iterator was provided.
    pub ordinals: Option<Vec<i64>>,
    /// The number of terms of the leaf.
    pub value_count: i64,
    /// The estimated number of matches.
    pub cost: i64,
}

impl DocValuesScorerSupplier {
    /// Returns an iterator over the matches. An iterator is provided once.
    ///
    /// # Errors
    ///
    /// [`LuceneError::IllegalState`] if an iterator was provided before;
    /// [`LuceneError::IllegalArgument`] if there are ordinals but the number of terms is
    /// negative.
    pub fn get<V: DocValues, K: SkipBlocks, P: DocValuesSkipper<Blocks = K>>(
        &mut self,
        values: V,
        skipper: Option<P>,
    ) -> (r: Result<DocValuesRangeIterator<V, K>, LuceneError>)
        requires
            values.inv(),
            values.view().valid(),
            values.view().doc == -1,
            old(self).value_count <= usize::MAX,
            old(self).ordinals matches Some(ordinals) ==> {
                &&& ascending(ordinals@)
                &&& old(self).value_count >= 0 ==> forall|i: int|
                    0 <= i < ordinals@.len() ==> 0 <= #[trigger] ordinals@[i]
                        < old(self).value_count
            },
            skipper matches Some(skipper) ==> skipper.table() == values.view().table,
        ensures
            final(self).ordinals is None,
            final(self).value_count == old(self).value_count,
            final(self).cost == old(self).cost,
            match old(self).ordinals {
                None => r matches Err(e) && e.is_illegal_state(
                    "ScorerSupplier.get(long) must be called at most once"@,
                ),
                Some(ordinals) => {
                    &&& r is Err <==> ordinals@.len() > 0 && old(self).value_count < 0
                    &&& r matches Err(e) ==> e.is_illegal_argument(
                        "the number of ordinals is negative"@,
                    )
                    &&& r matches Ok(it) ==> {
                        &&& it.inv()
                        &&& it.ids().doc == -1
                        &&& forall|d: int| #[trigger]
                            it.hits().contains(d) <==> values.view().table.dom().contains(d)
                                && any_of(values.view().table[d], ordinals@)
                        &&& if ordinals@.len() == 0 {
                            iterates_over_nothing(it)
                        } else {
                            iterates_over(
                                it,
                                values,
                                skipper,
                                ordinals@[0],
                                ordinals@.last(),
                                is_contiguous(ordinals@),
                                MANY_VALUES_COST,
                            )
                        }
                    }
                },
            },
    {
        match self.ordinals.take() {
            None => Err(
                LuceneError::IllegalState(
                    "ScorerSupplier.get(long) must be called at most once".to_owned(),
                ),
            ),
            Some(ordinals) => DocValuesRangeIterator::for_sorted_set_ordinal_set(
                values,
                skipper,
                ordinals.as_slice(),
                self.value_count,
            ),
        }
    }

    /// Returns the estimated number of matches: that of the documents with a value.
    pub fn cost(&self) -> (r: i64)
        ensures
            r == self.cost,
    {
        self.cost
    }
}

} // verus!
