//! Queries for the documents that have a field.

use vstd::prelude::*;
use vstd::set_lib::{lemma_int_range, lemma_len_subset, lemma_subset_equality, set_int_range};
use vstd::string::*;

use crate::error::LuceneError;
use crate::search::index_searcher::NumClausesCheckVisitor;
use crate::search::leaf_reader::{DocCounts, DocValuesType, FieldInfo, LeafReader};
use crate::util::text::same_text;

verus! {

/// What is said of a field that stores nothing to tell which documents have it.
pub open spec fn no_data_message(name: Seq<char>) -> Seq<char> {
    "FieldExistsQuery requires that the field indexes doc values, norms or vectors, but field '"@
        + name + "' exists and indexes neither of these data structures"@
}

fn build_error_msg(name: &str) -> (r: String)
    ensures
        r@ == no_data_message(name@),
{
    let mut message =
        "FieldExistsQuery requires that the field indexes doc values, norms or vectors, but field '".to_owned();
    message.append(name);
    message.append("' exists and indexes neither of these data structures");
    message
}

/// Matches the documents that have a field.
#[derive(Debug)]
pub struct FieldExistsQuery {
    /// The field.
    pub field: String,
}

/// Whether every document of a leaf is known to have the field.
pub enum LeafCheck {
    /// Every document has it.
    All,
    /// Not every document is known to have it.
    NotAll,
    /// Reading the index failed.
    Failed(LuceneError),
    /// The leaf stores nothing to tell.
    NoData,
}

/// Whether the count is that of all documents.
pub open spec fn counts_all(count: Option<i32>, max_doc: i32) -> bool {
    count == Some(max_doc)
}

/// Whether every document of a leaf is known to have a field. `top` is the index that the
/// leaf is in.
pub open spec fn leaf_check<T: DocCounts, R: LeafReader>(top: T, leaf: R, field: Seq<char>) -> LeafCheck {
    match leaf.info(field) {
        None => LeafCheck::NotAll,
        Some(info) => if info.norms {
            match top.docs_with(field) {
                Err(e) => LeafCheck::Failed(e),
                Ok(n) => if n == top.docs() {
                    LeafCheck::All
                } else {
                    LeafCheck::NotAll
                },
            }
        } else if info.vector_dimension != 0 {
            match leaf.vector_count(field, info.vector_encoding) {
                Err(e) => LeafCheck::Failed(e),
                Ok(n) => if (match n {
                    Some(size) => size,
                    None => 0,
                }) == leaf.docs() {
                    LeafCheck::All
                } else {
                    LeafCheck::NotAll
                },
            }
        } else if info.doc_values_type != DocValuesType::NONE {
            match (leaf.term_docs(field), leaf.point_docs(field), leaf.skipper_docs(field)) {
                (Err(e), _, _) => LeafCheck::Failed(e),
                (_, Err(e), _) => LeafCheck::Failed(e),
                (_, _, Err(e)) => LeafCheck::Failed(e),
                (Ok(terms), Ok(points), Ok(skipper)) => if counts_all(terms, leaf.docs())
                    || counts_all(points, leaf.docs()) || counts_all(skipper, leaf.docs()) {
                    LeafCheck::All
                } else {
                    LeafCheck::NotAll
                },
            }
        } else {
            LeafCheck::NoData
        },
    }
}

/// What comes of checking the leaves from position `i` on: that of the first leaf of which
/// not every document is known to have the field.
pub open spec fn leaves_check<T: DocCounts, R: LeafReader>(
    top: T,
    leaves: Seq<R>,
    field: Seq<char>,
    i: int,
) -> LeafCheck
    decreases leaves.len() - i,
{
    if i >= leaves.len() {
        LeafCheck::All
    } else {
        match leaf_check(top, leaves[i], field) {
            LeafCheck::All => leaves_check(top, leaves, field, i + 1),
            other => other,
        }
    }
}

fn is_all(count: Option<i32>, max_doc: i32) -> (r: bool)
    ensures
        r == counts_all(count, max_doc),
{
    match count {
        Some(n) => n == max_doc,
        None => false,
    }
}

fn check_leaf<T: DocCounts, R: LeafReader>(top: &T, leaf: &R, field: &str) -> (r: LeafCheck)
    ensures
        r == leaf_check(*top, *leaf, field@),
{
    let info = match leaf.field_info(field) {
        None => {
            return LeafCheck::NotAll;
        },
        Some(info) => info,
    };
    if info.norms {
        return match top.get_doc_count(field) {
            Err(e) => LeafCheck::Failed(e),
            Ok(n) => if n == top.max_doc() {
                LeafCheck::All
            } else {
                LeafCheck::NotAll
            },
        };
    }
    if info.vector_dimension != 0 {
        return match leaf.get_vector_count(field, info.vector_encoding) {
            Err(e) => LeafCheck::Failed(e),
            Ok(n) => {
                let size: i32 = match n {
                    Some(size) => size,
                    None => 0,
                };
                if size == leaf.max_doc() {
                    LeafCheck::All
                } else {
                    LeafCheck::NotAll
                }
            },
        };
    }
    if info.doc_values_type == DocValuesType::NONE {
        return LeafCheck::NoData;
    }
    let terms = match leaf.get_term_docs(field) {
        Err(e) => {
            return LeafCheck::Failed(e);
        },
        Ok(n) => n,
    };
    let points = match leaf.get_point_docs(field) {
        Err(e) => {
            return LeafCheck::Failed(e);
        },
        Ok(n) => n,
    };
    let skipper = match leaf.get_skipper_docs(field) {
        Err(e) => {
            return LeafCheck::Failed(e);
        },
        Ok(n) => n,
    };
    let max_doc: i32 = leaf.max_doc();
    if is_all(terms, max_doc) || is_all(points, max_doc) || is_all(skipper, max_doc) {
        LeafCheck::All
    } else {
        LeafCheck::NotAll
    }
}

/// The documents of a leaf that have values in a field; `None` when there are none.
pub open spec fn docs_with_values<R: LeafReader>(reader: R, field: Seq<char>) -> Result<
    Option<R::I>,
    LuceneError,
> {
    match reader.info(field) {
        None => Ok(None),
        Some(info) => if info.doc_values_type == DocValuesType::NONE {
            Ok(None)
        } else {
            reader.values(field, info.doc_values_type)
        },
    }
}

impl FieldExistsQuery {
    /// Shows the query to a visitor as a single clause.
    pub fn visit(&self, visitor: &mut NumClausesCheckVisitor)
        requires
            old(visitor).wf(),
        ensures
            final(visitor).wf(),
            final(visitor).limit() == old(visitor).limit(),
            final(visitor).visits() == old(visitor).visits() + 1,
    {
        visitor.count_one();
    }

    /// Creates a query for the documents that have a field.
    pub fn new(field: &str) -> (r: Self)
        ensures
            r.field@ == field@,
    {
        FieldExistsQuery { field: field.to_owned() }
    }

    /// Returns the field.
    pub fn get_field(&self) -> (r: &str)
        ensures
            r@ == self.field@,
    {
        self.field.as_str()
    }

    /// Returns the documents of a leaf that have values in a field; `None` when there are
    /// none.
    ///
    /// # Errors
    ///
    /// Whatever reading the leaf fails with.
    pub fn get_doc_values_doc_id_set_iterator<R: LeafReader>(field: &str, reader: &R) -> (r: Result<
        Option<R::I>,
        LuceneError,
    >)
        ensures
            r == docs_with_values(*reader, field@),
    {
        match reader.field_info(field) {
            None => Ok(None),
            Some(info) => {
                if info.doc_values_type == DocValuesType::NONE {
                    Ok(None)
                } else {
                    reader.get_doc_values(field, info.doc_values_type)
                }
            },
        }
    }

    /// Returns whether the query can be rewritten to one that matches all documents, which is
    /// so when every document of every leaf is known to have the field.
    ///
    /// # Errors
    ///
    /// [`LuceneError::IllegalState`] if a leaf stores nothing to tell; whatever reading the
    /// index fails with.
    pub fn rewrite<T: DocCounts, R: LeafReader>(&self, top: &T, leaves: &[R]) -> (r: Result<
        bool,
        LuceneError,
    >)
        ensures
            match leaves_check(*top, leaves@, self.field@, 0) {
                LeafCheck::All => r matches Ok(true),
                LeafCheck::NotAll => r matches Ok(false),
                LeafCheck::Failed(e) => r == Err::<bool, LuceneError>(e),
                LeafCheck::NoData => r matches Err(e) && e.is_illegal_state(
                    no_data_message(self.field@),
                ),
            },
    {
        let n: usize = leaves.len();
        let mut i: usize = 0;
        while i < n
            invariant
                n == leaves@.len(),
                i <= n,
                leaves_check(*top, leaves@, self.field@, 0) == leaves_check(
                    *top,
                    leaves@,
                    self.field@,
                    i as int,
                ),
            decreases n - i,
        {
            match check_leaf(top, &leaves[i], self.field.as_str()) {
                LeafCheck::All => {},
                LeafCheck::NotAll => {
                    return Ok(false);
                },
                LeafCheck::Failed(e) => {
                    return Err(e);
                },
                LeafCheck::NoData => {
                    return Err(LuceneError::IllegalState(build_error_msg(self.field.as_str())));
                },
            }
            i += 1;
        }
        Ok(true)
    }

    /// Renders the query.
    pub fn to_query_string(&self) -> (r: String)
        ensures
            r@ == "FieldExistsQuery [field="@ + self.field@ + "]"@,
    {
        let mut text = "FieldExistsQuery [field=".to_owned();
        text.append(self.field.as_str());
        text.append("]");
        text
    }

    /// Returns whether two queries are for the same field.
    pub fn query_eq(&self, other: &Self) -> (r: bool)
        ensures
            r <==> self.field@ == other.field@,
    {
        same_text(self.field.as_str(), other.field.as_str())
    }

    /// Returns an iterator over the matches in a leaf; `None` when there are none.
    ///
    /// # Errors
    ///
    /// [`LuceneError::IllegalState`] if the leaf stores nothing to tell which documents have
    /// the field; whatever reading the leaf fails with.
    pub fn scorer<R: LeafReader>(&self, reader: &R) -> (r: Result<Option<R::I>, LuceneError>)
        ensures
            match reader.info(self.field@) {
                None => r == Ok::<Option<R::I>, LuceneError>(None),
                Some(info) => if info.norms {
                    r == reader.norms(self.field@)
                } else if info.vector_dimension != 0 {
                    r == reader.vectors(self.field@, info.vector_encoding)
                } else if info.doc_values_type != DocValuesType::NONE {
                    r == reader.values(self.field@, info.doc_values_type)
                } else {
                    r matches Err(e) && e.is_illegal_state(no_data_message(info.name@))
                },
            },
    {
        let field: &str = self.field.as_str();
        let info = match reader.field_info(field) {
            None => {
                return Ok(None);
            },
            Some(info) => info,
        };
        if info.norms {
            reader.get_norm_values(field)
        } else if info.vector_dimension != 0 {
            reader.get_vector_docs(field, info.vector_encoding)
        } else if info.doc_values_type != DocValuesType::NONE {
            FieldExistsQuery::get_doc_values_doc_id_set_iterator(field, reader)
        } else {
            Err(LuceneError::IllegalState(build_error_msg(info.name.as_str())))
        }
    }

    /// The number of documents of a leaf that have the field, the deleted ones included, as
    /// far as the leaf stores it; -1 when it is not known.
    pub open spec fn stored_count<R: LeafReader>(self, reader: R, info: FieldInfo) -> Result<
        i32,
        LuceneError,
    > {
        let counted = if info.vector_dimension > 0 {
            Some(reader.vector_count(self.field@, info.vector_encoding))
        } else if info.skip_index {
            Some(reader.skipper_docs(self.field@))
        } else if reader.deleted() {
            None
        } else if info.point_dimension_count > 0 {
            Some(reader.point_docs(self.field@))
        } else if info.indexed {
            Some(reader.term_docs(self.field@))
        } else {
            None
        };
        match counted {
            None => Ok(-1i32),
            Some(Err(e)) => Err(e),
            Some(Ok(Some(n))) => Ok(n),
            Some(Ok(None)) => Ok(0),
        }
    }

    /// What a stored count says of the number of matches; -1 when it says nothing.
    pub open spec fn matches_of<R: LeafReader>(reader: R, count: i32) -> i32 {
        if count == 0 {
            0
        } else if count == reader.docs() {
            reader.live_docs()
        } else if count >= 0 && !reader.deleted() {
            count
        } else {
            -1i32
        }
    }

    /// Returns the number of matches in a leaf; -1 when it is not known.
    ///
    /// # Errors
    ///
    /// [`LuceneError::IllegalState`] if the leaf stores nothing to tell which documents have
    /// the field; whatever reading the leaf fails with.
    pub fn count<R: LeafReader>(&self, reader: &R) -> (r: Result<i32, LuceneError>)
        ensures
            match reader.info(self.field@) {
                None => r matches Ok(0),
                Some(info) => if info.norms {
                    r == match reader.docs_with(self.field@) {
                        Err(e) => Err(e),
                        Ok(n) => Ok(
                            if n == reader.docs() {
                                reader.live_docs()
                            } else {
                                -1i32
                            },
                        ),
                    }
                } else if info.vector_dimension > 0 || info.doc_values_type != DocValuesType::NONE {
                    r == match self.stored_count(*reader, info) {
                        Err(e) => Err(e),
                        Ok(n) => Ok(Self::matches_of(*reader, n)),
                    }
                } else {
                    r matches Err(e) && e.is_illegal_state(no_data_message(info.name@))
                },
            },
    {
        let field: &str = self.field.as_str();
        let info = match reader.field_info(field) {
            None => {
                return Ok(0);
            },
            Some(info) => info,
        };
        if info.norms {
            return match reader.get_doc_count(field) {
                Err(e) => Err(e),
                Ok(n) => {
                    if n == reader.max_doc() {
                        Ok(reader.num_docs())
                    } else {
                        Ok(-1)
                    }
                },
            };
        }
        if info.vector_dimension <= 0 && info.doc_values_type == DocValuesType::NONE {
            return Err(LuceneError::IllegalState(build_error_msg(info.name.as_str())));
        }
        let counted: Option<Result<Option<i32>, LuceneError>> = if info.vector_dimension > 0 {
            Some(reader.get_vector_count(field, info.vector_encoding))
        } else if info.skip_index {
            Some(reader.get_skipper_docs(field))
        } else if reader.has_deletions() {
            None
        } else if info.point_dimension_count > 0 {
            Some(reader.get_point_docs(field))
        } else if info.indexed {
            Some(reader.get_term_docs(field))
        } else {
            None
        };
        let count: i32 = match counted {
            None => -1,
            Some(Err(e)) => {
                return Err(e);
            },
            Some(Ok(Some(n))) => n,
            Some(Ok(None)) => 0,
        };
        if count == 0 {
            Ok(0)
        } else if count == reader.max_doc() {
            Ok(reader.num_docs())
        } else if count >= 0 && !reader.has_deletions() {
            Ok(count)
        } else {
            Ok(-1)
        }
    }

    /// Returns whether the matches in a leaf can be cached, which is not so when the values
    /// of the field have been changed.
    pub fn is_cacheable<R: LeafReader>(&self, reader: &R) -> (r: bool)
        ensures
            r == match reader.info(self.field@) {
                Some(info) => info.doc_values_type == DocValuesType::NONE || info.doc_values_gen
                    <= -1,
                None => true,
            },
    {
        match reader.field_info(self.field.as_str()) {
            Some(info) => info.doc_values_type == DocValuesType::NONE || info.doc_values_gen <= -1,
            None => true,
        }
    }
}

/// The number of matches that is known is that of the documents that have the field and are
/// not deleted. `having` are the documents of the leaf that have the field, as many as the
/// leaf has counted, and `live` those that are not deleted.
pub proof fn known_matches_are_exact<R: LeafReader>(
    reader: R,
    count: i32,
    having: Set<int>,
    live: Set<int>,
)
    requires
        having.subset_of(set_int_range(0, reader.docs() as int)),
        live.subset_of(set_int_range(0, reader.docs() as int)),
        count >= 0 ==> having.len() == count,
        live.len() == reader.live_docs(),
        !reader.deleted() ==> live == set_int_range(0, reader.docs() as int),
        0 <= reader.docs(),
    ensures
        FieldExistsQuery::matches_of(reader, count) == -1
            || FieldExistsQuery::matches_of(reader, count) == having.intersect(live).len(),
{
    let all = set_int_range(0, reader.docs() as int);
    lemma_int_range(0, reader.docs() as int);
    lemma_len_subset(having, all);
    if count == 0 {
        assert(having =~= Set::empty()) by {
            if having.len() == 0 {
                having.lemma_len0_is_empty();
            }
        }
        assert(having.intersect(live) =~= Set::empty());
    } else if count == reader.docs() {
        lemma_subset_equality(having, all);
        assert(having.intersect(live) =~= live);
    } else if count >= 0 && !reader.deleted() {
        assert(having.intersect(live) =~= having);
    }
}

impl FieldExistsQuery {
    /// The query is rewritten to one that matches all documents only when, in every leaf, a count
    /// that tells how many documents have the field is equal to the number of documents: of the
    /// whole index for norms, of the leaf for vectors, terms, points and the skip index. It is so
    /// rewritten when that holds of every leaf and nothing fails.
    pub proof fn rewriting_needs_full_counts<T: DocCounts, R: LeafReader>(
        &self,
        top: &T,
        leaves: &[R],
        r: Result<bool, LuceneError>,
    )
        requires
            call_ensures(FieldExistsQuery::rewrite::<T, R>, (self, top, leaves), r),
        ensures
            r == Ok::<bool, LuceneError>(true) ==> forall|i: int|
                0 <= i < leaves@.len() ==> match (#[trigger] leaves@[i]).info(self.field@) {
                    None => false,
                    Some(info) => {
                        let docs = leaves@[i].docs();
                        if info.norms {
                            top.docs_with(self.field@) == Ok::<i32, LuceneError>(top.docs())
                        } else if info.vector_dimension != 0 {
                            match leaves@[i].vector_count(self.field@, info.vector_encoding) {
                                Ok(Some(n)) => n == docs,
                                Ok(None) => docs == 0,
                                Err(_) => false,
                            }
                        } else {
                            ||| leaves@[i].term_docs(self.field@) == Ok::<
                                Option<i32>,
                                LuceneError,
                            >(Some(docs))
                            ||| leaves@[i].point_docs(self.field@) == Ok::<
                                Option<i32>,
                                LuceneError,
                            >(Some(docs))
                            ||| leaves@[i].skipper_docs(self.field@) == Ok::<
                                Option<i32>,
                                LuceneError,
                            >(Some(docs))
                        }
                    },
                },
            r == Ok::<bool, LuceneError>(false) ==> exists|i: int|
                0 <= i < leaves@.len() && match (#[trigger] leaves@[i]).info(self.field@) {
                    None => true,
                    Some(info) => {
                        let docs = leaves@[i].docs();
                        if info.norms {
                            top.docs_with(self.field@) matches Ok(n) && n != top.docs()
                        } else if info.vector_dimension != 0 {
                            match leaves@[i].vector_count(self.field@, info.vector_encoding) {
                                Ok(Some(n)) => n != docs,
                                Ok(None) => docs != 0,
                                Err(_) => false,
                            }
                        } else {
                            &&& leaves@[i].term_docs(self.field@) matches Ok(n) && n != Some(docs)
                            &&& leaves@[i].point_docs(self.field@) matches Ok(n) && n != Some(docs)
                            &&& leaves@[i].skipper_docs(self.field@) matches Ok(n) && n != Some(
                                docs,
                            )
                        }
                    },
                },
            r is Err ==> exists|i: int|
                0 <= i < leaves@.len() && match (#[trigger] leaves@[i]).info(self.field@) {
                    None => false,
                    Some(info) => if info.norms {
                        top.docs_with(self.field@) is Err
                    } else if info.vector_dimension != 0 {
                        leaves@[i].vector_count(self.field@, info.vector_encoding) is Err
                    } else {
                        ||| info.doc_values_type == DocValuesType::NONE
                        ||| leaves@[i].term_docs(self.field@) is Err
                        ||| leaves@[i].point_docs(self.field@) is Err
                        ||| leaves@[i].skipper_docs(self.field@) is Err
                    },
                },
    {
        lemma_leaves_check(*top, leaves@, self.field@, 0);
    }

    /// When the query is rewritten to one that matches all documents, every document of every leaf
    /// has the field. `having` are the documents of the index that have the field and `of_leaf`
    /// those of each leaf, of which the first document is document `base` of the index; the counts
    /// that the index keeps are those of these documents.
    pub proof fn rewriting_is_sound<T: DocCounts, R: LeafReader>(
        &self,
        top: &T,
        leaves: &[R],
        having: Set<int>,
        of_leaf: Seq<Set<int>>,
        base: Seq<int>,
    )
        requires
            call_ensures(
                FieldExistsQuery::rewrite::<T, R>,
                (self, top, leaves),
                Ok::<bool, LuceneError>(true),
            ),
            having.subset_of(set_int_range(0, top.docs() as int)),
            top.docs_with(self.field@) matches Ok(n) ==> having.len() == n,
            of_leaf.len() == leaves@.len(),
            base.len() == leaves@.len(),
            forall|i: int|
                #![trigger leaves@[i]]
                0 <= i < leaves@.len() ==> {
                    let docs = leaves@[i].docs();
                    &&& 0 <= base[i] && base[i] + docs <= top.docs()
                    &&& of_leaf[i].subset_of(set_int_range(0, docs as int))
                    &&& forall|d: int|
                        0 <= d < docs ==> #[trigger] of_leaf[i].contains(d) == having.contains(
                            base[i] + d,
                        )
                    &&& leaves@[i].info(self.field@) matches Some(info) ==> {
                        &&& !info.norms && info.vector_dimension != 0 ==> match leaves@[i].vector_count(
                            self.field@,
                            info.vector_encoding,
                        ) {
                            Ok(Some(n)) => of_leaf[i].len() == n,
                            Ok(None) => of_leaf[i].len() == 0,
                            Err(_) => true,
                        }
                        &&& !info.norms && info.vector_dimension == 0 ==> {
                            &&& leaves@[i].term_docs(self.field@) matches Ok(Some(n))
                                ==> of_leaf[i].len() == n
                            &&& leaves@[i].point_docs(self.field@) matches Ok(Some(n))
                                ==> of_leaf[i].len() == n
                            &&& leaves@[i].skipper_docs(self.field@) matches Ok(Some(n))
                                ==> of_leaf[i].len() == n
                        }
                    }
                },
        ensures
            forall|i: int, d: int|
                0 <= i < leaves@.len() && 0 <= d < leaves@[i].docs()
                    ==> #[trigger] of_leaf[i].contains(d),
    {
        self.rewriting_needs_full_counts(top, leaves, Ok(true));
        assert forall|i: int, d: int|
            0 <= i < leaves@.len() && 0 <= d
                < leaves@[i].docs() implies #[trigger] of_leaf[i].contains(d) by {
            let docs = leaves@[i].docs();
            let info = leaves@[i].info(self.field@)->0;
            lemma_int_range(0, top.docs() as int);
            lemma_int_range(0, docs as int);
            if info.norms {
                lemma_subset_equality(having, set_int_range(0, top.docs() as int));
                assert(having.contains(base[i] + d));
            } else {
                lemma_subset_equality(of_leaf[i], set_int_range(0, docs as int));
            }
        }
    }

    /// A count of matches in a leaf is that of the documents that have the field and are not
    /// deleted, and it is known for a leaf without deletions where a count for the field is kept.
    /// `having` are the documents of the leaf that have the field, as many as each count that the
    /// leaf keeps says, and `live` those that are not deleted.
    pub proof fn counts_are_exact<R: LeafReader>(
        &self,
        reader: &R,
        having: Set<int>,
        live: Set<int>,
        r: Result<i32, LuceneError>,
    )
        requires
            call_ensures(FieldExistsQuery::count::<R>, (self, reader), r),
            0 <= reader.docs(),
            having.subset_of(set_int_range(0, reader.docs() as int)),
            live.subset_of(set_int_range(0, reader.docs() as int)),
            live.len() == reader.live_docs(),
            !reader.deleted() ==> live == set_int_range(0, reader.docs() as int),
            reader.info(self.field@) is None ==> having.len() == 0,
            reader.info(self.field@) matches Some(info) ==> {
                &&& info.norms ==> (reader.docs_with(self.field@) matches Ok(n) ==> having.len()
                    == n)
                &&& !info.norms && info.vector_dimension > 0 ==> match reader.vector_count(
                    self.field@,
                    info.vector_encoding,
                ) {
                    Ok(Some(n)) => having.len() == n,
                    Ok(None) => having.len() == 0,
                    Err(_) => true,
                }
                &&& !info.norms && info.vector_dimension <= 0 && info.skip_index
                    ==> match reader.skipper_docs(self.field@) {
                    Ok(Some(n)) => having.len() == n,
                    Ok(None) => having.len() == 0,
                    Err(_) => true,
                }
                &&& !info.norms && info.vector_dimension <= 0 && info.point_dimension_count > 0
                    ==> match reader.point_docs(self.field@) {
                    Ok(Some(n)) => having.len() == n,
                    Ok(None) => having.len() == 0,
                    Err(_) => true,
                }
                &&& !info.norms && info.vector_dimension <= 0 && info.point_dimension_count <= 0
                    && info.indexed ==> match reader.term_docs(self.field@) {
                    Ok(Some(n)) => having.len() == n,
                    Ok(None) => having.len() == 0,
                    Err(_) => true,
                }
            },
        ensures
            r matches Ok(n) ==> n == -1 || n == having.intersect(live).len(),
            r == Ok::<i32, LuceneError>(-1i32) ==> (reader.info(self.field@) matches Some(info)
                && if info.norms {
                having.len() != reader.docs()
            } else {
                ||| reader.deleted() && (info.vector_dimension > 0 || info.skip_index) && 0
                    < having.len() < reader.docs()
                ||| info.vector_dimension <= 0 && !info.skip_index && (reader.deleted() || (
                info.point_dimension_count <= 0 && !info.indexed))
            }),
            reader.info(self.field@) is None ==> r == Ok::<i32, LuceneError>(0i32),
    {
        lemma_int_range(0, reader.docs() as int);
        lemma_len_subset(having, set_int_range(0, reader.docs() as int));
        match reader.info(self.field@) {
            None => {
                having.lemma_len0_is_empty();
            },
            Some(info) => {
                if info.norms {
                    if having.len() == reader.docs() {
                        lemma_subset_equality(having, set_int_range(0, reader.docs() as int));
                        assert(having.intersect(live) =~= live);
                    }
                } else if info.vector_dimension > 0 || info.doc_values_type != DocValuesType::NONE {
                    if let Ok(n) = self.stored_count(*reader, info) {
                        known_matches_are_exact(*reader, n, having, live);
                    }
                }
            },
        }
        assert(having.len() == 0 ==> having.intersect(live) =~= having);
    }
}

proof fn lemma_leaves_check<T: DocCounts, R: LeafReader>(
    top: T,
    leaves: Seq<R>,
    field: Seq<char>,
    i: int,
)
    requires
        0 <= i <= leaves.len(),
    ensures
        leaves_check(top, leaves, field, i) is All ==> forall|j: int|
            i <= j < leaves.len() ==> leaf_check(top, #[trigger] leaves[j], field) is All,
        leaves_check(top, leaves, field, i) is NotAll ==> exists|j: int|
            i <= j < leaves.len() && leaf_check(top, #[trigger] leaves[j], field) is NotAll,
        !(leaves_check(top, leaves, field, i) is All) ==> exists|j: int|
            i <= j < leaves.len() && leaf_check(top, #[trigger] leaves[j], field)
                == leaves_check(top, leaves, field, i),
    decreases leaves.len() - i,
{
    if i < leaves.len() {
        lemma_leaves_check(top, leaves, field, i + 1);
    }
}

} // verus!
