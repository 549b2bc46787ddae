//! Queries for the terms within a number of edits of a term.

use std::sync::Arc;

use vstd::prelude::*;
use vstd::string::*;

use crate::error::LuceneError;
use crate::search::disjunction_matches_iterator::BytesRefIterator;
use crate::search::fuzzy_automaton_builder::{
    accepts_fuzzy_matches, edits_text, FuzzyAutomatonBuilder, LevenshteinCompiler,
    MAXIMUM_SUPPORTED_DISTANCE,
};
use crate::search::fuzzy_terms_enum::{
    shown, AutomatonAttribute, AutomatonAttributeImpl, BoostAttributes, FuzzyTerms, FuzzyTermsEnum,
    TermSimilarity,
};
use crate::search::index_searcher::NumClausesCheckVisitor;
use crate::util::text::{append_signed, decimal_int, same_text};

verus! {

/// The number of edits when none is given.
pub const DEFAULT_MAX_EDITS: i32 = 2;

/// The length of the prefix when none is given.
pub const DEFAULT_PREFIX_LENGTH: i32 = 0;

/// The greatest number of terms when none is given.
pub const DEFAULT_MAX_EXPANSIONS: i32 = 50;

/// Whether exchanging two neighbours is one edit when nothing is said of it.
pub const DEFAULT_TRANSPOSITIONS: bool = true;

/// How a query for many terms is rewritten.
#[derive(Debug, Clone, Copy, PartialEq, Eq, Structural)]
pub enum RewriteMethod {
    /// To the best terms, at most so many, scored as if they were equally frequent.
    TopTermsBlendedFreqScoring(i32),
    /// In another way, which the number stands for.
    Other(u64),
}

/// Returns how a fuzzy query is rewritten when nothing is said of it.
pub fn default_rewrite_method(max_expansions: i32) -> (r: Arc<RewriteMethod>)
    ensures
        *r == RewriteMethod::TopTermsBlendedFreqScoring(max_expansions),
{
    Arc::new(RewriteMethod::TopTermsBlendedFreqScoring(max_expansions))
}

/// A term of a field, as text.
#[derive(Debug)]
pub struct FuzzyTerm {
    /// The field.
    pub field: String,
    /// The text.
    pub text: String,
}

/// Matches the documents with a term within a number of edits of a term. A term other than that of
/// the query matches only if it has fewer edits than the shorter of the two has characters.
#[derive(Debug)]
pub struct FuzzyQuery {
    /// How the query is rewritten.
    pub rewrite_method: Arc<RewriteMethod>,
    /// The greatest number of edits.
    pub max_edits: i32,
    /// The greatest number of terms.
    pub max_expansions: i32,
    /// Whether exchanging two neighbours is one edit.
    pub transpositions: bool,
    /// How many characters terms have to start with.
    pub prefix_length: i32,
    /// The term.
    pub term: FuzzyTerm,
}

/// What is wrong with the arguments of a fuzzy query; `None` when nothing is.
pub open spec fn argument_error(max_edits: i32, prefix_length: i32, max_expansions: i32) -> Option<
    Seq<char>,
> {
    if !(0 <= max_edits <= MAXIMUM_SUPPORTED_DISTANCE) {
        Some("maxEdits must be between 0 and "@ + decimal_int(MAXIMUM_SUPPORTED_DISTANCE as int))
    } else if prefix_length < 0 {
        Some("prefixLength cannot be negative."@)
    } else if max_expansions <= 0 {
        Some("maxExpansions must be positive."@)
    } else {
        None
    }
}

/// Enumerates the terms of a fuzzy query.
pub enum FuzzyEnumeration<T: FuzzyTerms, S> {
    /// Only the term itself can match.
    Exact(T::E),
    /// The terms within a number of edits.
    Fuzzy(FuzzyTermsEnum<T, S>),
}

impl<T: FuzzyTerms, S: TermSimilarity> FuzzyEnumeration<T, S> {
    /// The enumeration that is held is well formed.
    pub open spec fn wf(&self) -> bool {
        match *self {
            FuzzyEnumeration::Exact(e) => e.inv(),
            FuzzyEnumeration::Fuzzy(e) => e.wf(),
        }
    }

    /// Whether asking for the next term never fails.
    pub open spec fn infallible(&self) -> bool {
        match *self {
            FuzzyEnumeration::Exact(e) => e.infallible(),
            FuzzyEnumeration::Fuzzy(e) => e.infallible(),
        }
    }

    /// Whether asking for the next term gives `found` and leads to `after`.
    pub open spec fn finds(&self, found: Option<Seq<u8>>, after: Self) -> bool {
        match (*self, after) {
            (FuzzyEnumeration::Exact(e), FuzzyEnumeration::Exact(f)) => match found {
                Some(term) => {
                    &&& e.remaining().len() > 0
                    &&& term == e.remaining()[0]
                    &&& f.remaining() == e.remaining().drop_first()
                },
                None => e.remaining().len() == 0 && f.remaining() == e.remaining(),
            },
            (FuzzyEnumeration::Fuzzy(e), FuzzyEnumeration::Fuzzy(f)) => e.finds(found, f),
            _ => false,
        }
    }

    /// Returns the next term that the query matches; `None` when there is none. A term other than
    /// that of the query matches only if it has fewer edits than the shorter of the two has
    /// characters: short terms sometimes do not match.
    ///
    /// # Errors
    ///
    /// Whatever reading the terms or counting the characters of a term fails with.
    pub fn next(&mut self) -> (r: Result<Option<Vec<u8>>, LuceneError>)
        requires
            old(self).wf(),
        ensures
            old(self).infallible() ==> r is Ok && final(self).infallible(),
            r matches Ok(found) ==> final(self).wf() && old(self).finds(
                shown(found),
                *final(self),
            ),
    {
        match self {
            FuzzyEnumeration::Exact(e) => e.next(),
            FuzzyEnumeration::Fuzzy(e) => e.next_similar(),
        }
    }
}

impl FuzzyQuery {
    /// Shows the query to a visitor as a single clause.
    pub fn visit(&self, visitor: &mut NumClausesCheckVisitor)
        requires
            old(visitor).wf(),
        ensures
            final(visitor).wf(),
            final(visitor).limit() == old(visitor).limit(),
            final(visitor).visits() == old(visitor).visits() + 1,
    {
        visitor.count_one();
    }

    /// Creates a query.
    ///
    /// # Errors
    ///
    /// [`LuceneError::IllegalArgument`] if the number of edits is out of range, the length of
    /// the prefix is negative, or the number of terms is not positive.
    pub fn with_rewrite_method(
        term: FuzzyTerm,
        max_edits: i32,
        prefix_length: i32,
        max_expansions: i32,
        transpositions: bool,
        rewrite_method: Arc<RewriteMethod>,
    ) -> (r: Result<Self, LuceneError>)
        ensures
            r is Ok <==> argument_error(max_edits, prefix_length, max_expansions) is None,
            r matches Err(e) ==> e.is_illegal_argument(
                argument_error(max_edits, prefix_length, max_expansions)->0,
            ),
            r matches Ok(q) ==> q == (FuzzyQuery {
                rewrite_method,
                max_edits,
                max_expansions,
                transpositions,
                prefix_length,
                term,
            }),
    {
        if max_edits < 0 || max_edits > MAXIMUM_SUPPORTED_DISTANCE {
            let mut message = "maxEdits must be between 0 and ".to_owned();
            append_signed(&mut message, MAXIMUM_SUPPORTED_DISTANCE as i64);
            return Err(LuceneError::IllegalArgument(message));
        }
        if prefix_length < 0 {
            return Err(LuceneError::IllegalArgument("prefixLength cannot be negative.".to_owned()));
        }
        if max_expansions <= 0 {
            return Err(LuceneError::IllegalArgument("maxExpansions must be positive.".to_owned()));
        }
        Ok(
            FuzzyQuery {
                rewrite_method,
                max_edits,
                max_expansions,
                transpositions,
                prefix_length,
                term,
            },
        )
    }

    /// Creates a query that is rewritten in the default way.
    ///
    /// # Errors
    ///
    /// As [`Self::with_rewrite_method`].
    pub fn with_expansions(
        term: FuzzyTerm,
        max_edits: i32,
        prefix_length: i32,
        max_expansions: i32,
        transpositions: bool,
    ) -> (r: Result<Self, LuceneError>)
        ensures
            r is Ok <==> argument_error(max_edits, prefix_length, max_expansions) is None,
            r matches Err(e) ==> e.is_illegal_argument(
                argument_error(max_edits, prefix_length, max_expansions)->0,
            ),
            r matches Ok(q) ==> {
                &&& q.term == term
                &&& q.max_edits == max_edits
                &&& q.prefix_length == prefix_length
                &&& q.max_expansions == max_expansions
                &&& q.transpositions == transpositions
                &&& *q.rewrite_method == RewriteMethod::TopTermsBlendedFreqScoring(max_expansions)
            },
    {
        Self::with_rewrite_method(
            term,
            max_edits,
            prefix_length,
            max_expansions,
            transpositions,
            default_rewrite_method(max_expansions),
        )
    }

    /// Creates a query for the default number of terms.
    ///
    /// # Errors
    ///
    /// As [`Self::with_rewrite_method`].
    pub fn with_prefix_length(term: FuzzyTerm, max_edits: i32, prefix_length: i32) -> (r: Result<
        Self,
        LuceneError,
    >)
        ensures
            r is Ok <==> argument_error(max_edits, prefix_length, DEFAULT_MAX_EXPANSIONS) is None,
            r matches Err(e) ==> e.is_illegal_argument(
                argument_error(max_edits, prefix_length, DEFAULT_MAX_EXPANSIONS)->0,
            ),
            r matches Ok(q) ==> {
                &&& q.term == term
                &&& q.max_edits == max_edits
                &&& q.prefix_length == prefix_length
                &&& q.max_expansions == DEFAULT_MAX_EXPANSIONS
                &&& q.transpositions == DEFAULT_TRANSPOSITIONS
                &&& *q.rewrite_method == RewriteMethod::TopTermsBlendedFreqScoring(
                    DEFAULT_MAX_EXPANSIONS,
                )
            },
    {
        Self::with_expansions(
            term,
            max_edits,
            prefix_length,
            DEFAULT_MAX_EXPANSIONS,
            DEFAULT_TRANSPOSITIONS,
        )
    }

    /// Creates a query without a prefix.
    ///
    /// # Errors
    ///
    /// As [`Self::with_rewrite_method`].
    pub fn with_max_edits(term: FuzzyTerm, max_edits: i32) -> (r: Result<Self, LuceneError>)
        ensures
            r is Ok <==> 0 <= max_edits <= MAXIMUM_SUPPORTED_DISTANCE,
            r matches Err(e) ==> e.is_illegal_argument(
                argument_error(max_edits, DEFAULT_PREFIX_LENGTH, DEFAULT_MAX_EXPANSIONS)->0,
            ),
            r matches Ok(q) ==> {
                &&& q.term == term
                &&& q.max_edits == max_edits
                &&& q.prefix_length == DEFAULT_PREFIX_LENGTH
                &&& q.max_expansions == DEFAULT_MAX_EXPANSIONS
                &&& q.transpositions == DEFAULT_TRANSPOSITIONS
                &&& *q.rewrite_method == RewriteMethod::TopTermsBlendedFreqScoring(
                    DEFAULT_MAX_EXPANSIONS,
                )
            },
    {
        Self::with_prefix_length(term, max_edits, DEFAULT_PREFIX_LENGTH)
    }

    /// Creates a query for the default number of edits.
    ///
    /// # Errors
    ///
    /// Never.
    pub fn new(term: FuzzyTerm) -> (r: Result<Self, LuceneError>)
        ensures
            r matches Ok(q) && q.term == term && q.max_edits == DEFAULT_MAX_EDITS
                && q.prefix_length == DEFAULT_PREFIX_LENGTH && q.max_expansions
                == DEFAULT_MAX_EXPANSIONS && q.transpositions == DEFAULT_TRANSPOSITIONS
                && *q.rewrite_method == RewriteMethod::TopTermsBlendedFreqScoring(
                DEFAULT_MAX_EXPANSIONS,
            ),
    {
        Self::with_max_edits(term, DEFAULT_MAX_EDITS)
    }

    /// Returns the greatest number of edits.
    pub fn get_max_edits(&self) -> (r: i32)
        ensures
            r == self.max_edits,
    {
        self.max_edits
    }

    /// Returns how many characters terms have to start with.
    pub fn get_prefix_length(&self) -> (r: i32)
        ensures
            r == self.prefix_length,
    {
        self.prefix_length
    }

    /// Returns whether exchanging two neighbours is one edit.
    pub fn get_transpositions(&self) -> (r: bool)
        ensures
            r == self.transpositions,
    {
        self.transpositions
    }

    /// Returns the greatest number of terms.
    pub fn get_max_expansions(&self) -> (r: i32)
        ensures
            r == self.max_expansions,
    {
        self.max_expansions
    }

    /// Returns the automaton that accepts the terms of the query.
    ///
    /// # Errors
    ///
    /// As [`Self::get_fuzzy_automaton`].
    pub fn get_automata<C: LevenshteinCompiler>(&self, compiler: &C) -> (r: Result<
        C::A,
        LuceneError,
    >)
        requires
            self.term.text@.len() <= i32::MAX,
        ensures
            is_fuzzy_automaton(
                self.term.text@,
                self.max_edits,
                self.prefix_length,
                self.transpositions,
                *compiler,
                r,
            ),
    {
        Self::get_fuzzy_automaton(
            self.term.text.as_str(),
            self.max_edits,
            self.prefix_length,
            self.transpositions,
            compiler,
        )
    }

    /// Returns the automaton that accepts the terms within a number of edits of a term.
    ///
    /// # Errors
    ///
    /// [`LuceneError::IllegalArgument`] if the number of edits is out of range or the length of
    /// the prefix is negative; [`LuceneError::ResourceLimit`] if the automaton is too complex.
    pub fn get_fuzzy_automaton<C: LevenshteinCompiler>(
        term: &str,
        max_edits: i32,
        prefix_length: i32,
        transpositions: bool,
        compiler: &C,
    ) -> (r: Result<C::A, LuceneError>)
        requires
            term@.len() <= i32::MAX,
        ensures
            is_fuzzy_automaton(term@, max_edits, prefix_length, transpositions, *compiler, r),
    {
        let builder = FuzzyAutomatonBuilder::new(term, max_edits, prefix_length, transpositions)?;
        builder.build_max_edit_automaton(compiler)
    }

    /// Returns the term.
    pub fn get_term(&self) -> (r: &FuzzyTerm)
        ensures
            *r == self.term,
    {
        &self.term
    }

    /// Returns the field.
    pub fn get_field(&self) -> (r: &str)
        ensures
            r@ == self.term.field@,
    {
        self.term.field.as_str()
    }

    /// Returns how the query is rewritten.
    pub fn get_rewrite_method(&self) -> (r: Arc<RewriteMethod>)
        ensures
            *r == *self.rewrite_method,
    {
        Arc::clone(&self.rewrite_method)
    }

    /// Enumerates the terms of the query, given the bytes of its term.
    ///
    /// # Errors
    ///
    /// Whatever building the automata or reading the terms fails with.
    pub fn get_terms_enum_with_atts<T, S, C>(
        &self,
        terms: T,
        similarity: S,
        compiler: &C,
        attribute: &mut Option<AutomatonAttributeImpl<T::A>>,
        atts: BoostAttributes,
        term: Vec<u8>,
    ) -> (r: Result<FuzzyEnumeration<T, S>, LuceneError>) where
        T: FuzzyTerms,
        S: TermSimilarity,
        C: LevenshteinCompiler<A = T::A>,

        requires
            self.term.text@.len() <= i32::MAX,
            *old(attribute) matches Some(a) ==> (a.set() matches Some(set) ==> 0
                < set.automata@.len() <= i32::MAX),
        ensures
            r matches Ok(found) ==> found.wf(),
            if self.max_edits == 0 {
                &&& *final(attribute) == *old(attribute)
                &&& terms.infallible() ==> r is Ok
                &&& r matches Ok(found) ==> (found matches FuzzyEnumeration::Exact(e)
                    && terms.alone(term@, e))
            } else {
                FuzzyTermsEnum::opened(
                    terms,
                    similarity,
                    *compiler,
                    *old(attribute),
                    *final(attribute),
                    atts,
                    self.term.text@,
                    term,
                    self.max_edits,
                    self.prefix_length,
                    self.transpositions,
                    match r {
                        Ok(found) => Ok(found->Fuzzy_0),
                        Err(e) => Err(e),
                    },
                ) && (r matches Ok(found) ==> found is Fuzzy)
            },
    {
        if self.max_edits == 0 {
            let e = terms.single(term.as_slice())?;
            return Ok(FuzzyEnumeration::Exact(e));
        }
        match FuzzyTermsEnum::with_attributes(
            terms,
            similarity,
            compiler,
            attribute,
            atts,
            self.term.text.as_str(),
            term,
            self.max_edits,
            self.prefix_length,
            self.transpositions,
        ) {
            Ok(e) => Ok(FuzzyEnumeration::Fuzzy(e)),
            Err(e) => Err(e),
        }
    }

    /// Renders the query; `field` is left out of the rendering.
    pub fn to_query_string(&self, field: &str) -> (r: String)
        ensures
            r@ == (if self.term.field@ == field@ {
                Seq::<char>::empty()
            } else {
                self.term.field@ + ":"@
            }) + self.term.text@ + "~"@ + decimal_int(self.max_edits as int),
    {
        let mut buffer = String::new();
        if !same_text(self.term.field.as_str(), field) {
            buffer.append(self.term.field.as_str());
            buffer.append(":");
            assert(buffer@ =~= self.term.field@ + ":"@);
        } else {
            assert(buffer@ =~= Seq::<char>::empty());
        }
        buffer.append(self.term.text.as_str());
        buffer.append("~");
        append_signed(&mut buffer, self.max_edits as i64);
        buffer
    }

    /// Returns whether two queries are for the same terms and are rewritten in the same way.
    pub fn query_eq(&self, other: &Self) -> (r: bool)
        ensures
            r <==> {
                &&& *self.rewrite_method == *other.rewrite_method
                &&& self.max_edits == other.max_edits
                &&& self.prefix_length == other.prefix_length
                &&& self.max_expansions == other.max_expansions
                &&& self.transpositions == other.transpositions
                &&& self.term.field@ == other.term.field@
                &&& self.term.text@ == other.term.text@
            },
    {
        let a: RewriteMethod = *self.rewrite_method;
        let b: RewriteMethod = *other.rewrite_method;
        a == b && self.max_edits == other.max_edits && self.prefix_length == other.prefix_length
            && self.max_expansions == other.max_expansions && self.transpositions
            == other.transpositions && same_text(
            self.term.field.as_str(),
            other.term.field.as_str(),
        ) && same_text(self.term.text.as_str(), other.term.text.as_str())
    }

    /// Returns the hash of the query, for the hash of its field and rewriting and that of its
    /// term.
    pub fn query_hash(&self, base_hash: u64, term_hash: u64) -> (r: u64)
        requires
            self.max_edits >= 0,
            self.prefix_length >= 0,
            self.max_expansions >= 0,
        ensures
            r == next_hash(
                next_hash(
                    next_hash(
                        next_hash(
                            next_hash(base_hash, self.max_edits as u64),
                            self.prefix_length as u64,
                        ),
                        self.max_expansions as u64,
                    ),
                    if self.transpositions {
                        0
                    } else {
                        1
                    },
                ),
                term_hash,
            ),
    {
        let mut result: u64 = base_hash;
        result = 31u64.wrapping_mul(result).wrapping_add(self.max_edits as u64);
        result = 31u64.wrapping_mul(result).wrapping_add(self.prefix_length as u64);
        result = 31u64.wrapping_mul(result).wrapping_add(self.max_expansions as u64);
        let exchanged: u64 = if self.transpositions {
            0
        } else {
            1
        };
        result = 31u64.wrapping_mul(result).wrapping_add(exchanged);
        31u64.wrapping_mul(result).wrapping_add(term_hash)
    }
}

/// The hash of one more value.
pub open spec fn next_hash(hash: u64, value: u64) -> u64 {
    31u64.wrapping_mul(hash).wrapping_add(value)
}

/// Whether `r` is what comes of building the automaton that accepts the terms within a number of
/// edits of a term.
pub open spec fn is_fuzzy_automaton<C: LevenshteinCompiler>(
    term: Seq<char>,
    max_edits: i32,
    prefix_length: i32,
    transpositions: bool,
    compiler: C,
    r: Result<C::A, LuceneError>,
) -> bool {
    if !(0 <= max_edits <= MAXIMUM_SUPPORTED_DISTANCE) {
        r matches Err(e) && e.is_illegal_argument(edits_text(max_edits))
    } else if prefix_length < 0 {
        r matches Err(e) && e.is_illegal_argument("prefixLength cannot be less than 0"@)
    } else {
        let n = if prefix_length < term.len() {
            prefix_length as int
        } else {
            term.len() as int
        };
        match compiler.compiled(term.take(n), term.skip(n), max_edits, transpositions) {
            Ok(Some(a)) => r == Ok::<C::A, LuceneError>(a) && accepts_fuzzy_matches(
                a,
                term.take(n),
                term.skip(n),
                max_edits as int,
                transpositions,
            ),
            Ok(None) => r matches Err(e) && e.is_illegal_argument(edits_text(max_edits)),
            Err(cause) => r matches Err(LuceneError::ResourceLimit(m)) && m@
                == "Term too complex: "@ + term + " ("@ + cause + ")"@,
        }
    }
}

} // verus!
