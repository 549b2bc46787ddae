//! Enumerating the terms within a number of edits of a term.

use std::sync::Arc;

use vstd::prelude::*;
use vstd::utf8::{decode_utf8, decode_utf8_encode_utf8, valid_utf8};

use crate::error::LuceneError;
use crate::search::disjunction_matches_iterator::BytesRefIterator;
use crate::search::fuzzy_automaton_builder::{
    accepts_fuzzy_matches, is_fuzzy_match, no_edits_is_equality, FuzzyAutomatonBuilder,
    LevenshteinCompiler, RunAutomaton,
};
use crate::search::hit_queue::WORST_SCORE;
use crate::search::index_searcher::UNIT_BOOST;
use crate::util::bytes::{bytes_are_ordered, compare_bytes, copy_of, order_of_bytes};

verus! {

/// The automata for 0 edits up to the greatest number of edits of a term.
#[derive(Debug)]
pub struct AutomatonSet<A> {
    /// The automata.
    pub automata: Vec<A>,
    /// The number of characters of the term.
    pub term_length: i32,
}

/// Holds automata that are shared by the leaves of an index.
pub trait AutomatonAttribute<A> {
    /// The automata; `None` before they are built.
    spec fn set(&self) -> Option<AutomatonSet<A>>;

    /// Returns the automata; `None` before they are built.
    fn get_automaton_set(&self) -> (r: Option<Arc<AutomatonSet<A>>>)
        ensures
            match r {
                Some(set) => self.set() == Some(*set),
                None => self.set() is None,
            },
    ;

    /// Builds the automata, unless that has been done.
    ///
    /// # Errors
    ///
    /// Whatever building the automata fails with.
    fn init<C: LevenshteinCompiler<A = A>, F: Fn() -> Result<FuzzyAutomatonBuilder, LuceneError>>(
        &mut self,
        builder: &F,
        compiler: &C,
    ) -> (r: Result<(), LuceneError>)
        requires
            call_requires(*builder, ()),
            forall|b: FuzzyAutomatonBuilder| #[trigger]
                call_ensures(*builder, (), Ok(b)) ==> b.wf(),
        ensures
            old(self).set() is Some ==> r is Ok && final(self).set() == old(self).set(),
            old(self).set() is None ==> (r matches Err(e) ==> final(self).set() is None
                && cannot_build(*builder, *compiler, e)),
            old(self).set() is None && r is Ok ==> exists|b: FuzzyAutomatonBuilder| #[trigger]
                call_ensures(*builder, (), Ok(b)) && final(self).set() is Some && is_set_of(
                    b,
                    *compiler,
                    final(self).set()->0,
                ),
    ;
}

/// Whether `e` is why the automata could not be built: what creating the builder failed with, or
/// what building one of them failed with.
pub open spec fn cannot_build<
    C: LevenshteinCompiler,
    F: Fn() -> Result<FuzzyAutomatonBuilder, LuceneError>,
>(builder: F, compiler: C, e: LuceneError) -> bool {
    ||| call_ensures(builder, (), Err::<FuzzyAutomatonBuilder, LuceneError>(e))
    ||| exists|b: FuzzyAutomatonBuilder, n: i32|
        #![trigger b.compiles_to(compiler, n, Err(e))]
        call_ensures(builder, (), Ok::<FuzzyAutomatonBuilder, LuceneError>(b)) && 0 <= n
            <= b.edits() && b.compiles_to(compiler, n, Err(e))
}

/// Whether a set holds the automata that a builder builds.
pub open spec fn is_set_of<C: LevenshteinCompiler>(
    builder: FuzzyAutomatonBuilder,
    compiler: C,
    set: AutomatonSet<C::A>,
) -> bool {
    &&& set.term_length == builder.length()
    &&& set.automata@.len() == builder.edits() + 1
    &&& forall|i: int|
        0 <= i < set.automata@.len() ==> builder.compiles_to(
            compiler,
            i as i32,
            Ok(#[trigger] set.automata@[i]),
        )
}

/// Holds automata.
pub struct AutomatonAttributeImpl<A> {
    automata: Option<Arc<AutomatonSet<A>>>,
}

impl<A> AutomatonAttributeImpl<A> {
    /// Creates an attribute without automata.
    pub fn new() -> (r: Self)
        ensures
            r.set() is None,
    {
        AutomatonAttributeImpl { automata: None }
    }

    /// Removes the automata.
    pub fn clear(&mut self)
        ensures
            final(self).set() is None,
    {
        self.automata = None;
    }
}

impl<A> AutomatonAttribute<A> for AutomatonAttributeImpl<A> {
    closed spec fn set(&self) -> Option<AutomatonSet<A>> {
        match self.automata {
            Some(set) => Some(*set),
            None => None,
        }
    }

    fn get_automaton_set(&self) -> (r: Option<Arc<AutomatonSet<A>>>) {
        match &self.automata {
            Some(set) => Some(Arc::clone(set)),
            None => None,
        }
    }

    fn init<C: LevenshteinCompiler<A = A>, F: Fn() -> Result<FuzzyAutomatonBuilder, LuceneError>>(
        &mut self,
        builder: &F,
        compiler: &C,
    ) -> (r: Result<(), LuceneError>) {
        if self.automata.is_some() {
            return Ok(());
        }
        let b = builder()?;
        let automata = b.build_automaton_set(compiler)?;
        let set = AutomatonSet { automata, term_length: b.get_term_length() };
        assert(is_set_of(b, *compiler, set));
        self.automata = Some(Arc::new(set));
        assert(call_ensures(*builder, (), Ok(b)));
        Ok(())
    }
}

/// Returns the automata of an attribute, which is created and filled as far as that has not been
/// done.
///
/// # Errors
///
/// Whatever building the automata fails with.
pub fn shared_automata<C: LevenshteinCompiler, F: Fn() -> Result<FuzzyAutomatonBuilder, LuceneError>>(
    attribute: &mut Option<AutomatonAttributeImpl<C::A>>,
    builder: &F,
    compiler: &C,
) -> (r: Result<Arc<AutomatonSet<C::A>>, LuceneError>)
    requires
        call_requires(*builder, ()),
        forall|b: FuzzyAutomatonBuilder| #[trigger] call_ensures(*builder, (), Ok(b)) ==> b.wf(),
    ensures
        *final(attribute) is Some,
        (*old(attribute) matches Some(a) && a.set() is Some) ==> r is Ok,
        r matches Err(e) ==> cannot_build(*builder, *compiler, e),
        r matches Ok(set) ==> {
            &&& (*final(attribute))->0.set() == Some(*set)
            &&& match *old(attribute) {
                Some(a) => if a.set() is Some {
                    a.set() == Some(*set)
                } else {
                    exists|b: FuzzyAutomatonBuilder| #[trigger]
                        call_ensures(*builder, (), Ok(b)) && is_set_of(b, *compiler, *set)
                },
                None => exists|b: FuzzyAutomatonBuilder| #[trigger]
                    call_ensures(*builder, (), Ok(b)) && is_set_of(b, *compiler, *set),
            }
        },
{
    let mut held = match attribute.take() {
        Some(a) => a,
        None => AutomatonAttributeImpl::new(),
    };
    let filled = held.init(builder, compiler);
    let set = held.get_automaton_set();
    *attribute = Some(held);
    match filled {
        Err(e) => Err(e),
        Ok(()) => match set {
            Some(set) => Ok(set),
            None => Err(
                LuceneError::IllegalState(
                    "the AutomatonAttribute was just initialised".to_owned(),
                ),
            ),
        },
    }
}

/// Says how similar terms are. A boost is an integer that is ordered like it.
pub trait TermSimilarity {
    /// The boost of a term with `edits` edits, where the shorter of the two terms has `length`
    /// characters: 1 less the fraction of the characters that are edited.
    spec fn boost(&self, edits: int, length: int) -> i32;

    /// The number of characters of a term, or what counting them fails with.
    spec fn characters(&self, term: Seq<u8>) -> Result<i32, LuceneError>;

    /// Returns the boost of a term.
    fn boost_of(&self, edits: i32, length: i32) -> (r: i32)
        ensures
            r == self.boost(edits as int, length as int),
    ;

    /// Returns the number of characters of a term.
    ///
    /// # Errors
    ///
    /// Whatever decoding the term fails with.
    fn code_point_count(&self, term: &[u8]) -> (r: Result<i32, LuceneError>)
        ensures
            r == self.characters(term@),
    ;
}

/// The terms of a field.
pub trait FuzzyTerms {
    /// The automata that terms are accepted by.
    type A: RunAutomaton;

    /// Enumerates terms.
    type E: BytesRefIterator;

    /// Whether `e` enumerates the terms that `automaton` accepts: all of them, or those after the
    /// last accepted one that is not after `last`.
    spec fn accepted(&self, automaton: Self::A, last: Option<Seq<u8>>, e: Self::E) -> bool;

    /// Whether `e` enumerates the one term that is given, if the field has it.
    spec fn alone(&self, term: Seq<u8>, e: Self::E) -> bool;

    /// Whether reading the terms never fails.
    spec fn infallible(&self) -> bool;

    /// Enumerates the one term that is given, if the field has it.
    ///
    /// # Errors
    ///
    /// Whatever reading the terms fails with.
    fn single(&self, term: &[u8]) -> (r: Result<Self::E, LuceneError>)
        ensures
            self.infallible() ==> r is Ok,
            r matches Ok(e) ==> e.inv() && self.alone(term@, e),
    ;

    /// Enumerates the terms that an automaton accepts.
    ///
    /// # Errors
    ///
    /// Whatever reading the terms fails with.
    fn intersect(&self, automaton: &Self::A, last: Option<&[u8]>) -> (r: Result<
        Self::E,
        LuceneError,
    >)
        ensures
            self.infallible() ==> r is Ok,
            r matches Ok(e) ==> e.inv() && self.accepted(*automaton, shown_slice(last), e) && (
            self.infallible() ==> e.infallible()),
    ;
}

/// What the users of an enumeration of terms tell each other.
#[derive(Debug)]
pub struct BoostAttributes {
    /// The boost of the current term.
    pub boost: i32,
    /// The greatest boost of terms that are not competitive.
    pub max_non_competitive_boost: i32,
    /// The last term that is competitive with that boost.
    pub competitive_term: Option<Vec<u8>>,
}

impl BoostAttributes {
    /// Creates attributes for which all terms are competitive.
    pub fn new() -> (r: Self)
        ensures
            r.boost == UNIT_BOOST,
            r.max_non_competitive_boost == WORST_SCORE,
            r.competitive_term is None,
    {
        BoostAttributes {
            boost: UNIT_BOOST,
            max_non_competitive_boost: WORST_SCORE,
            competitive_term: None,
        }
    }
}

/// Whether terms with a number of edits are competitive: their boost is greater than `bottom`, or
/// equal to it before the last competitive term.
pub open spec fn competitive<S: TermSimilarity>(
    similarity: S,
    length: int,
    bottom: i32,
    term_after: bool,
    edits: int,
) -> bool {
    ||| bottom < similarity.boost(edits, length)
    ||| bottom == similarity.boost(edits, length) && !term_after
}

/// The greatest number of edits, at most `edits`, for which terms are competitive.
pub open spec fn competitive_edits<S: TermSimilarity>(
    similarity: S,
    length: int,
    bottom: i32,
    term_after: bool,
    edits: int,
) -> int
    decreases edits,
{
    if edits <= 0 {
        0
    } else if competitive(similarity, length, bottom, term_after, edits) {
        edits
    } else {
        competitive_edits(similarity, length, bottom, term_after, edits - 1)
    }
}

proof fn lemma_competitive_edits_are_bounded<S: TermSimilarity>(
    similarity: S,
    length: int,
    bottom: i32,
    term_after: bool,
    edits: int,
)
    requires
        edits >= 0,
    ensures
        0 <= competitive_edits(similarity, length, bottom, term_after, edits) <= edits,
    decreases edits,
{
    if edits > 0 {
        lemma_competitive_edits_are_bounded(similarity, length, bottom, term_after, edits - 1);
    }
}

/// Returns the greatest number of edits, at most `edits`, for which terms are competitive.
fn find_competitive_edits<S: TermSimilarity>(
    similarity: &S,
    length: i32,
    bottom: i32,
    term_after: bool,
    edits: i32,
) -> (r: i32)
    requires
        edits >= 0,
    ensures
        r == competitive_edits(*similarity, length as int, bottom, term_after, edits as int),
        0 <= r <= edits,
{
    let mut n: i32 = edits;
    while n > 0
        invariant_except_break
            competitive_edits(*similarity, length as int, bottom, term_after, edits as int)
                == competitive_edits(*similarity, length as int, bottom, term_after, n as int),
        invariant
            0 <= n <= edits,
        ensures
            n == competitive_edits(*similarity, length as int, bottom, term_after, edits as int),
        decreases n,
    {
        let max_boost: i32 = similarity.boost_of(n, length);
        if bottom < max_boost || (bottom == max_boost && !term_after) {
            break;
        }
        n -= 1;
    }
    n
}

/// The number of edits of a term that the automaton for `edits` edits accepts.
pub open spec fn edits_of<A: RunAutomaton>(
    automata: Seq<A>,
    own: Seq<u8>,
    term: Seq<u8>,
    edits: int,
) -> int
    decreases edits,
{
    if edits <= 0 {
        0
    } else if within(automata, own, term, edits - 1) {
        edits_of(automata, own, term, edits - 1)
    } else {
        edits
    }
}

/// Whether a term is within `k` edits.
pub open spec fn within<A: RunAutomaton>(
    automata: Seq<A>,
    own: Seq<u8>,
    term: Seq<u8>,
    k: int,
) -> bool {
    if k == 0 {
        term == own
    } else {
        automata[k].accepts(term)
    }
}

/// Enumerates the terms within a number of edits of a term.
pub struct FuzzyTermsEnum<T: FuzzyTerms, S> {
    /// Enumerates the terms that the automaton for the current number of edits accepts.
    pub actual_enum: T::E,
    /// What the users of the enumeration tell each other.
    pub atts: BoostAttributes,
    /// The automata.
    pub set: Arc<AutomatonSet<T::A>>,
    /// The terms of the field.
    pub terms: T,
    /// Says how similar terms are.
    pub similarity: S,
    /// The bytes of the term.
    pub term: Vec<u8>,
    /// The greatest boost of terms that are not competitive, as far as it was noted.
    pub bottom: i32,
    /// The last term that is competitive with that boost.
    pub bottom_term: Option<Vec<u8>>,
    /// The term after which fewer edits may be asked for.
    pub queued_bottom: Option<Vec<u8>>,
    /// The greatest number of edits of terms that are competitive.
    pub max_edits: i32,
}

impl<T: FuzzyTerms, S: TermSimilarity> FuzzyTermsEnum<T, S> {
    /// There is an automaton for each number of edits.
    pub open spec fn wf(&self) -> bool {
        &&& 0 <= self.max_edits < self.set.automata@.len()
        &&& self.actual_enum.inv()
    }

    /// Whether reading the terms and counting their characters never fails.
    pub open spec fn infallible(&self) -> bool {
        &&& self.terms.infallible()
        &&& self.actual_enum.infallible()
        &&& forall|t: Seq<u8>| (#[trigger] self.similarity.characters(t)) is Ok
    }

    /// Enumerates the similar terms, with automata and attributes of its own.
    ///
    /// # Errors
    ///
    /// [`LuceneError::IllegalArgument`] if the number of edits or the length of the prefix is out
    /// of range; whatever building the automata or reading the terms fails with.
    pub fn new<C: LevenshteinCompiler<A = T::A>>(
        terms: T,
        similarity: S,
        compiler: &C,
        text: &str,
        term: Vec<u8>,
        max_edits: i32,
        prefix_length: i32,
        transpositions: bool,
    ) -> (r: Result<Self, LuceneError>)
        requires
            text@.len() <= i32::MAX,
        ensures
            r matches Ok(e) ==> {
                &&& e.atts.boost == UNIT_BOOST
                &&& e.atts.max_non_competitive_boost == WORST_SCORE
                &&& e.atts.competitive_term is None
                &&& e.starts(terms, similarity, term)
            },
            Self::automata_come_of(
                *compiler,
                text@,
                max_edits,
                prefix_length,
                transpositions,
                terms,
                r,
            ),
    {
        let mut attribute: Option<AutomatonAttributeImpl<T::A>> = None;
        Self::with_attributes(
            terms,
            similarity,
            compiler,
            &mut attribute,
            BoostAttributes::new(),
            text,
            term,
            max_edits,
            prefix_length,
            transpositions,
        )
    }

    /// What holds of a new enumeration: the terms with as many edits as are competitive are
    /// enumerated from the first one on.
    pub open spec fn starts(&self, terms: T, similarity: S, term: Vec<u8>) -> bool {
        &&& self.wf()
        &&& self.terms == terms
        &&& self.similarity == similarity
        &&& self.term == term
        &&& self.bottom == self.atts.max_non_competitive_boost
        &&& shown(self.bottom_term) == shown(self.atts.competitive_term)
        &&& self.queued_bottom is None
        &&& self.max_edits == competitive_edits(
            similarity,
            self.set.term_length as int,
            self.bottom,
            self.after_bottom(None),
            self.set.automata@.len() - 1,
        )
        &&& terms.accepted(self.set.automata@[self.max_edits as int], None, self.actual_enum)
    }

    /// Whether the automata are those of the term, and `r` fails only where they cannot be built
    /// or the terms cannot be read.
    pub open spec fn automata_come_of<C: LevenshteinCompiler<A = T::A>>(
        compiler: C,
        text: Seq<char>,
        max_edits: i32,
        prefix_length: i32,
        transpositions: bool,
        terms: T,
        r: Result<Self, LuceneError>,
    ) -> bool {
        exists|built: Result<FuzzyAutomatonBuilder, LuceneError>| #[trigger]
            FuzzyAutomatonBuilder::comes_of(text, max_edits, prefix_length, transpositions, built)
                && match built {
                Err(e) => r == Err::<Self, LuceneError>(e),
                Ok(b) => match r {
                    Ok(e) => is_set_of(b, compiler, *e.set),
                    Err(e) => !terms.infallible() || exists|n: i32|
                        0 <= n <= b.edits() && #[trigger] b.compiles_to(compiler, n, Err(e)),
                },
            }
    }

    /// Whether `r` is what comes of opening an enumeration with automata that are shared through
    /// an attribute: those that it held `before`, or those of the term.
    pub open spec fn opened<C: LevenshteinCompiler<A = T::A>>(
        terms: T,
        similarity: S,
        compiler: C,
        before: Option<AutomatonAttributeImpl<T::A>>,
        after: Option<AutomatonAttributeImpl<T::A>>,
        atts: BoostAttributes,
        text: Seq<char>,
        term: Vec<u8>,
        max_edits: i32,
        prefix_length: i32,
        transpositions: bool,
        r: Result<Self, LuceneError>,
    ) -> bool {
        &&& after is Some
        &&& r matches Ok(e) ==> {
            &&& after->0.set() == Some(*e.set)
            &&& e.atts == atts
            &&& e.starts(terms, similarity, term)
        }
        &&& if before is Some && before->0.set() is Some {
            &&& terms.infallible() ==> r is Ok
            &&& r matches Ok(e) ==> before->0.set() == Some(*e.set)
        } else {
            Self::automata_come_of(
                compiler,
                text,
                max_edits,
                prefix_length,
                transpositions,
                terms,
                r,
            )
        }
    }

    /// Enumerates the similar terms, with automata that are shared through `attribute`.
    ///
    /// # Errors
    ///
    /// As [`Self::new`], as far as the automata are not there yet.
    pub fn with_attributes<C: LevenshteinCompiler<A = T::A>>(
        terms: T,
        similarity: S,
        compiler: &C,
        attribute: &mut Option<AutomatonAttributeImpl<T::A>>,
        atts: BoostAttributes,
        text: &str,
        term: Vec<u8>,
        max_edits: i32,
        prefix_length: i32,
        transpositions: bool,
    ) -> (r: Result<Self, LuceneError>)
        requires
            text@.len() <= i32::MAX,
            *old(attribute) matches Some(a) ==> (a.set() matches Some(set) ==> 0
                < set.automata@.len() <= i32::MAX),
        ensures
            Self::opened(
                terms,
                similarity,
                *compiler,
                *old(attribute),
                *final(attribute),
                atts,
                text@,
                term,
                max_edits,
                prefix_length,
                transpositions,
                r,
            ),
    {
        let build = || -> (b: Result<FuzzyAutomatonBuilder, LuceneError>)
            requires
                text@.len() <= i32::MAX,
            ensures
                FuzzyAutomatonBuilder::comes_of(
                    text@,
                    max_edits,
                    prefix_length,
                    transpositions,
                    b,
                ),
            { FuzzyAutomatonBuilder::new(text, max_edits, prefix_length, transpositions) };
        let set = shared_automata(attribute, &build, compiler)?;
        let edits: i32 = (set.automata.len() - 1) as i32;
        let bottom: i32 = atts.max_non_competitive_boost;
        let bottom_term = copy_held(&atts.competitive_term);
        let n: i32 = find_competitive_edits(
            &similarity,
            set.term_length,
            bottom,
            bottom_term.is_none(),
            edits,
        );
        let actual_enum = terms.intersect(&set.automata[n as usize], None)?;
        Ok(
            FuzzyTermsEnum {
                actual_enum,
                atts,
                set,
                terms,
                similarity,
                term,
                bottom,
                bottom_term,
                queued_bottom: None,
                max_edits: n,
            },
        )
    }

    /// Sets the greatest boost of terms that are not competitive.
    pub fn set_max_non_competitive_boost(&mut self, boost: i32)
        ensures
            *final(self) == (FuzzyTermsEnum {
                atts: BoostAttributes { max_non_competitive_boost: boost, ..old(self).atts },
                ..*old(self)
            }),
    {
        self.atts.max_non_competitive_boost = boost;
    }

    /// Returns the boost of the current term.
    pub fn get_boost(&self) -> (r: i32)
        ensures
            r == self.atts.boost,
    {
        self.atts.boost
    }

    /// Whether the last term does not come before the last competitive one.
    pub open spec fn after_bottom(&self, last_term: Option<Seq<u8>>) -> bool {
        match (self.bottom_term, last_term) {
            (None, _) => true,
            (Some(bottom), Some(last)) => order_of_bytes(last, bottom@) >= 0,
            (Some(_), None) => false,
        }
    }

    fn is_after_bottom(&self, last_term: Option<&[u8]>) -> (r: bool)
        ensures
            r == self.after_bottom(shown_slice(last_term)),
    {
        match (&self.bottom_term, last_term) {
            (None, _) => true,
            (Some(bottom), Some(last)) => compare_bytes(last, bottom.as_slice()) >= 0,
            (Some(_), None) => false,
        }
    }

    /// The number of edits that is asked for after `last_term`.
    pub open spec fn edits_after(&self, last_term: Option<Seq<u8>>) -> int {
        competitive_edits(
            self.similarity,
            self.set.term_length as int,
            self.bottom,
            self.after_bottom(last_term),
            self.max_edits as int,
        )
    }

    /// Whether `after` asks for the terms that are competitive after `last_term`: another
    /// automaton is used where the number of edits has changed.
    pub open spec fn drops_edits(&self, last_term: Option<Seq<u8>>, after: Self) -> bool {
        let n = self.edits_after(last_term);
        &&& after == (FuzzyTermsEnum {
            max_edits: n as i32,
            actual_enum: after.actual_enum,
            ..*self
        })
        &&& if n != self.max_edits || last_term is None {
            &&& self.terms.accepted(self.set.automata@[n], last_term, after.actual_enum)
            &&& self.terms.infallible() ==> after.actual_enum.infallible()
        } else {
            after.actual_enum == self.actual_enum
        }
    }

    /// Drops the numbers of edits for which terms are not competitive.
    ///
    /// # Errors
    ///
    /// Whatever reading the terms fails with.
    fn bottom_changed(&mut self, last_term: Option<&[u8]>) -> (r: Result<(), LuceneError>)
        requires
            old(self).wf(),
        ensures
            old(self).terms.infallible() ==> r is Ok,
            r is Ok ==> final(self).wf() && old(self).drops_edits(
                shown_slice(last_term),
                *final(self),
            ),
    {
        let old_max_edits: i32 = self.max_edits;
        let term_after: bool = self.is_after_bottom(last_term);
        let n: i32 = find_competitive_edits(
            &self.similarity,
            self.set.term_length,
            self.bottom,
            term_after,
            old_max_edits,
        );
        self.max_edits = n;
        if old_max_edits != n || last_term.is_none() {
            self.actual_enum = self.terms.intersect(&self.set.automata[n as usize], last_term)?;
        }
        Ok(())
    }

    /// Returns whether a term is within `k` edits.
    fn matches(&self, term_in: &[u8], k: i32) -> (r: bool)
        requires
            0 <= k < self.set.automata@.len(),
        ensures
            r == within(self.set.automata@, self.term@, term_in@, k as int),
    {
        if k == 0 {
            proof {
                bytes_are_ordered(term_in@, self.term@, term_in@);
            }
            return compare_bytes(term_in, self.term.as_slice()) == 0;
        }
        self.set.automata[k as usize].run(term_in)
    }

    /// Returns the number of edits of a term that the current automaton accepts.
    pub fn edit_distance(&self, term_in: &[u8]) -> (r: i32)
        requires
            self.wf(),
        ensures
            r == edits_of(self.set.automata@, self.term@, term_in@, self.max_edits as int),
            0 <= r <= self.max_edits,
    {
        let mut ed: i32 = self.max_edits;
        while ed > 0 && self.matches(term_in, ed - 1)
            invariant
                self.wf(),
                0 <= ed <= self.max_edits,
                edits_of(self.set.automata@, self.term@, term_in@, self.max_edits as int)
                    == edits_of(self.set.automata@, self.term@, term_in@, ed as int),
            decreases ed,
        {
            ed -= 1;
        }
        ed
    }

    /// The boost of a term that the current automaton accepts: 1 for the term itself, and by the
    /// number of edits and of characters of the shorter of the two terms for any other.
    pub open spec fn boost_of_term(&self, term: Seq<u8>) -> i32 {
        let ed = edits_of(self.set.automata@, self.term@, term, self.max_edits as int);
        if ed == 0 {
            UNIT_BOOST
        } else {
            let count = self.similarity.characters(term)->Ok_0;
            self.similarity.boost(
                ed,
                if count < self.set.term_length {
                    count as int
                } else {
                    self.set.term_length as int
                },
            )
        }
    }

    /// Whether `after` is the enumeration once a change of what is competitive that was noted at
    /// the last term has been followed.
    pub open spec fn follows_queue(&self, after: Self) -> bool {
        match self.queued_bottom {
            None => after == *self,
            Some(last) => (FuzzyTermsEnum { queued_bottom: None, ..*self }).drops_edits(
                Some(last@),
                after,
            ),
        }
    }

    /// Whether `after` is the enumeration with `term` returned: its boost is set, and a change of
    /// what is competitive is noted.
    pub open spec fn returns_term(&self, term: Seq<u8>, after: Self) -> bool {
        let rest = self.actual_enum.remaining();
        let noted = self.atts.max_non_competitive_boost != self.bottom || shown(
            self.atts.competitive_term,
        ) != shown(self.bottom_term);
        &&& rest.len() > 0
        &&& term == rest[0]
        &&& after.actual_enum.remaining() == rest.drop_first()
        &&& after.set == self.set
        &&& after.terms == self.terms
        &&& after.similarity == self.similarity
        &&& after.term == self.term
        &&& after.max_edits == self.max_edits
        &&& after.atts == (BoostAttributes { boost: self.boost_of_term(term), ..self.atts })
        &&& after.bottom == self.atts.max_non_competitive_boost
        &&& shown(after.bottom_term) == shown(self.atts.competitive_term)
        &&& shown(after.queued_bottom) == if noted {
            Some(term)
        } else {
            shown(self.queued_bottom)
        }
    }

    /// Whether asking for the next term gives `found` and leads to `after`.
    pub open spec fn gives(&self, found: Option<Seq<u8>>, after: Self) -> bool {
        exists|mid: Self| #[trigger]
            self.follows_queue(mid) && match found {
                Some(term) => mid.returns_term(term, after),
                None => mid.actual_enum.remaining().len() == 0 && after == (FuzzyTermsEnum {
                    actual_enum: after.actual_enum,
                    ..mid
                }),
            }
    }

    /// Whether a term that the current automaton accepts has fewer edits than the shorter of the
    /// two terms has characters.
    pub open spec fn is_similar(&self, term: Seq<u8>) -> bool {
        let ed = edits_of(self.set.automata@, self.term@, term, self.max_edits as int);
        ed == 0 || (ed < self.set.term_length && ed < self.similarity.characters(term)->Ok_0)
    }

    /// Whether one term after the other is passed over on the way through `run`, since none of
    /// them is similar.
    pub open spec fn passes_over(run: Seq<Self>, dropped: Seq<Seq<u8>>) -> bool {
        &&& run.len() == dropped.len() + 1
        &&& forall|i: int| #![trigger dropped[i]]
            0 <= i < dropped.len() ==> run[i].gives(Some(dropped[i]), run[i + 1])
                && !run[i + 1].is_similar(dropped[i])
    }

    /// Whether asking for the next similar term gives `found` and leads to `after`.
    pub open spec fn finds(&self, found: Option<Seq<u8>>, after: Self) -> bool {
        exists|run: Seq<Self>, dropped: Seq<Seq<u8>>|
            {
                &&& #[trigger] Self::passes_over(run, dropped)
                &&& run[0] == *self
                &&& run.last().gives(found, after)
                &&& found matches Some(term) ==> after.is_similar(term)
            }
    }

    /// Returns the next term that has fewer edits than the shorter of the two terms has
    /// characters; `None` when there is none.
    ///
    /// # Errors
    ///
    /// Whatever reading the terms or counting the characters of a term fails with.
    pub fn next_similar(&mut self) -> (r: Result<Option<Vec<u8>>, LuceneError>)
        requires
            old(self).wf(),
        ensures
            old(self).infallible() ==> r is Ok && final(self).infallible(),
            r matches Ok(found) ==> final(self).wf() && old(self).finds(
                shown(found),
                *final(self),
            ),
    {
        let ghost mut run: Seq<Self> = seq![*self];
        let ghost mut dropped: Seq<Seq<u8>> = Seq::empty();
        loop
            invariant
                self.wf(),
                old(self).infallible() ==> self.infallible(),
                Self::passes_over(run, dropped),
                run[0] == *old(self),
                run.last() == *self,
            decreases self.max_edits, self.actual_enum.remaining().len(),
        {
            let ghost before = *self;
            let found = self.next()?;
            assert(before.gives(shown(found), *self));
            let term = match found {
                Some(term) => term,
                None => {
                    assert(old(self).finds(None, *self));
                    return Ok(None);
                },
            };
            let ed: i32 = self.edit_distance(term.as_slice());
            let similar: bool = ed == 0 || (ed < self.set.term_length && ed
                < self.similarity.code_point_count(term.as_slice())?);
            if similar {
                assert(old(self).finds(Some(term@), *self));
                return Ok(Some(term));
            }
            proof {
                let longer_run = run.push(*self);
                let more_dropped = dropped.push(term@);
                assert forall|i: int| #![trigger more_dropped[i]]
                    0 <= i < more_dropped.len() implies longer_run[i].gives(
                    Some(more_dropped[i]),
                    longer_run[i + 1],
                ) && !longer_run[i + 1].is_similar(more_dropped[i]) by {
                    if i < dropped.len() {
                        assert(more_dropped[i] == dropped[i]);
                    }
                }
                run = longer_run;
                dropped = more_dropped;
                let mid = choose|mid: Self| #[trigger]
                    before.follows_queue(mid) && mid.returns_term(term@, *self);
                if let Some(last) = before.queued_bottom {
                    let unqueued = FuzzyTermsEnum { queued_bottom: None, ..before };
                    lemma_competitive_edits_are_bounded(
                        before.similarity,
                        before.set.term_length as int,
                        before.bottom,
                        unqueued.after_bottom(Some(last@)),
                        before.max_edits as int,
                    );
                    assert(unqueued.drops_edits(Some(last@), mid));
                }
            }
        }
    }

    /// Returns the next term; `None` when there is none.
    ///
    /// # Errors
    ///
    /// Whatever reading the terms or counting the characters of a term fails with.
    pub fn next(&mut self) -> (r: Result<Option<Vec<u8>>, LuceneError>)
        requires
            old(self).wf(),
        ensures
            old(self).infallible() ==> r is Ok && final(self).infallible(),
            r matches Ok(found) ==> final(self).wf() && old(self).gives(
                shown(found),
                *final(self),
            ),
    {
        let queued = self.queued_bottom.take();
        if let Some(queued_bottom) = queued {
            self.bottom_changed(Some(queued_bottom.as_slice()))?;
        }
        let ghost mid = *self;
        assert(old(self).follows_queue(mid));
        let term = match self.actual_enum.next()? {
            Some(term) => term,
            None => {
                return Ok(None);
            },
        };
        let ed: i32 = self.edit_distance(term.as_slice());
        if ed == 0 {
            self.atts.boost = UNIT_BOOST;
        } else {
            let code_point_count: i32 = self.similarity.code_point_count(term.as_slice())?;
            let min_term_length: i32 = if code_point_count < self.set.term_length {
                code_point_count
            } else {
                self.set.term_length
            };
            self.atts.boost = self.similarity.boost_of(ed, min_term_length);
        }
        if self.atts.max_non_competitive_boost != self.bottom || !same_bytes(
            &self.atts.competitive_term,
            &self.bottom_term,
        ) {
            self.bottom = self.atts.max_non_competitive_boost;
            self.bottom_term = copy_held(&self.atts.competitive_term);
            self.queued_bottom = Some(copy_of(term.as_slice()));
        }
        assert(mid.returns_term(term@, *self));
        Ok(Some(term))
    }
}

/// The byte string that is given, if there is one.
pub open spec fn shown_slice(v: Option<&[u8]>) -> Option<Seq<u8>> {
    match v {
        Some(bytes) => Some(bytes@),
        None => None,
    }
}

fn copy_held(v: &Option<Vec<u8>>) -> (r: Option<Vec<u8>>)
    ensures
        shown(r) == shown(*v),
{
    match v {
        Some(bytes) => Some(copy_of(bytes.as_slice())),
        None => None,
    }
}

/// No number of edits that is dropped is competitive.
pub proof fn dropped_edits_are_not_competitive<S: TermSimilarity>(
    similarity: S,
    length: int,
    bottom: i32,
    term_after: bool,
    edits: int,
    k: int,
)
    requires
        competitive_edits(similarity, length, bottom, term_after, edits) < k <= edits,
    ensures
        !competitive(similarity, length, bottom, term_after, k),
    decreases edits,
{
    if k < edits {
        dropped_edits_are_not_competitive(similarity, length, bottom, term_after, edits - 1, k);
    }
}

/// The byte string that is held, if there is one.
pub open spec fn shown(v: Option<Vec<u8>>) -> Option<Seq<u8>> {
    match v {
        Some(bytes) => Some(bytes@),
        None => None,
    }
}

fn same_bytes(a: &Option<Vec<u8>>, b: &Option<Vec<u8>>) -> (r: bool)
    ensures
        r <==> shown(*a) == shown(*b),
{
    match (a, b) {
        (None, None) => true,
        (Some(x), Some(y)) => {
            proof {
                bytes_are_ordered(x@, y@, x@);
            }
            compare_bytes(x.as_slice(), y.as_slice()) == 0
        },
        _ => false,
    }
}

/// The number of edits that is found is the least one, when each automaton accepts all that the
/// automaton for fewer edits accepts.
pub proof fn found_edits_are_least<A: RunAutomaton>(
    automata: Seq<A>,
    own: Seq<u8>,
    term: Seq<u8>,
    edits: int,
    k: int,
)
    requires
        0 <= k < edits,
        forall|i: int, j: int|
            0 <= i <= j < edits && #[trigger] within(automata, own, term, i) ==> #[trigger] within(
                automata,
                own,
                term,
                j,
            ),
    ensures
        within(automata, own, term, k) <==> edits_of(automata, own, term, edits) <= k,
    decreases edits,
{
    if within(automata, own, term, edits - 1) {
        if k < edits - 1 {
            found_edits_are_least(automata, own, term, edits - 1, k);
        } else {
            lemma_edits_at_most(automata, own, term, edits - 1);
        }
    }
}

proof fn lemma_edits_at_most<A: RunAutomaton>(
    automata: Seq<A>,
    own: Seq<u8>,
    term: Seq<u8>,
    edits: int,
)
    requires
        edits >= 0,
    ensures
        0 <= edits_of(automata, own, term, edits) <= edits,
    decreases edits,
{
    if edits > 0 {
        lemma_edits_at_most(automata, own, term, edits - 1);
    }
}

/// A term is within `k` edits, as the automata see it, where it is within `k` edits of the text.
proof fn lemma_within_is_distance<A: RunAutomaton>(
    automata: Seq<A>,
    own: Seq<u8>,
    term: Seq<u8>,
    k: int,
    prefix: Seq<char>,
    suffix: Seq<char>,
    transpositions: bool,
)
    requires
        0 <= k < automata.len(),
        k > 0 ==> accepts_fuzzy_matches(automata[k], prefix, suffix, k, transpositions),
        valid_utf8(own),
        decode_utf8(own) == prefix + suffix,
        valid_utf8(term),
    ensures
        within(automata, own, term, k) <==> is_fuzzy_match(
            decode_utf8(term),
            prefix,
            suffix,
            k,
            transpositions,
        ),
{
    if k == 0 {
        let text = decode_utf8(term);
        let rest = text.skip(prefix.len() as int);
        no_edits_is_equality(rest, suffix, transpositions);
        if term == own {
            assert(rest =~= suffix);
        }
        if is_fuzzy_match(text, prefix, suffix, 0, transpositions) {
            assert(text =~= prefix + suffix);
            decode_utf8_encode_utf8(term);
            decode_utf8_encode_utf8(own);
        }
    }
}

/// The number of edits of a term that the last automaton accepts is the least number of edits
/// that lead to it: the edit distance of what follows the prefix.
pub proof fn edits_are_the_distance<A: RunAutomaton>(
    automata: Seq<A>,
    own: Seq<u8>,
    term: Seq<u8>,
    edits: int,
    prefix: Seq<char>,
    suffix: Seq<char>,
    transpositions: bool,
)
    requires
        0 <= edits < automata.len(),
        forall|k: int|
            0 <= k < automata.len() ==> accepts_fuzzy_matches(
                #[trigger] automata[k],
                prefix,
                suffix,
                k,
                transpositions,
            ),
        valid_utf8(own),
        decode_utf8(own) == prefix + suffix,
        automata[edits].accepts(term),
    ensures
        valid_utf8(term),
        ({
            let n = edits_of(automata, own, term, edits);
            &&& 0 <= n <= edits
            &&& is_fuzzy_match(decode_utf8(term), prefix, suffix, n, transpositions)
            &&& n > 0 ==> !is_fuzzy_match(decode_utf8(term), prefix, suffix, n - 1, transpositions)
        }),
    decreases edits,
{
    assert(accepts_fuzzy_matches(automata[edits], prefix, suffix, edits, transpositions));
    if edits > 0 {
        lemma_within_is_distance(automata, own, term, edits - 1, prefix, suffix, transpositions);
        assert(accepts_fuzzy_matches(
            automata[edits - 1],
            prefix,
            suffix,
            edits - 1,
            transpositions,
        ));
        if within(automata, own, term, edits - 1) {
            edits_are_the_distance(
                automata,
                own,
                term,
                edits - 1,
                prefix,
                suffix,
                transpositions,
            );
        }
    }
}

/// The number of edits that is asked for is the greatest one, of those that were asked for, for
/// which a term can be competitive: one whose boost is greater than that of the worst term that is
/// kept, or equal to it where the terms that follow come before that term. It is 0 when there is
/// none.
pub proof fn competitive_edits_are_greatest<S: TermSimilarity>(
    similarity: S,
    length: int,
    bottom: i32,
    term_after: bool,
    edits: int,
)
    requires
        edits >= 0,
    ensures
        ({
            let n = competitive_edits(similarity, length, bottom, term_after, edits);
            &&& 0 <= n <= edits
            &&& n > 0 ==> bottom < similarity.boost(n, length) || bottom == similarity.boost(
                n,
                length,
            ) && !term_after
            &&& forall|k: int|
                n < k <= edits ==> bottom > #[trigger] similarity.boost(k, length) || bottom
                    == similarity.boost(k, length) && term_after
        }),
    decreases edits,
{
    if edits > 0 && !competitive(similarity, length, bottom, term_after, edits) {
        competitive_edits_are_greatest(similarity, length, bottom, term_after, edits - 1);
    }
}

proof fn lemma_edits_of<A: RunAutomaton>(
    automata: Seq<A>,
    own: Seq<u8>,
    term: Seq<u8>,
    edits: int,
    k: int,
)
    requires
        edits >= 0,
    ensures
        0 <= edits_of(automata, own, term, edits) <= edits,
        edits_of(automata, own, term, edits) <= k < edits ==> within(automata, own, term, k),
        k == edits_of(automata, own, term, edits) - 1 && k >= 0 ==> !within(
            automata,
            own,
            term,
            k,
        ),
    decreases edits,
{
    if edits > 0 && within(automata, own, term, edits - 1) {
        lemma_edits_of(automata, own, term, edits - 1, k);
    }
}

impl<T: FuzzyTerms, S: TermSimilarity> FuzzyTermsEnum<T, S> {
    /// The distance of a term is where the automata stop to accept it: those for its distance and
    /// for more edits, up to the current one, accept it, and the one for one edit less does not. No
    /// edits lead to the term itself only.
    pub proof fn distances_are_where_acceptance_ends(&self, term_in: &[u8], r: i32, k: int)
        requires
            self.wf(),
            call_ensures(FuzzyTermsEnum::<T, S>::edit_distance, (self, term_in), r),
        ensures
            0 <= r <= self.max_edits,
            0 < k && r <= k < self.max_edits ==> self.set.automata@[k].accepts(term_in@),
            r == 0 && self.max_edits > 0 ==> term_in@ == self.term@,
            r == 1 ==> term_in@ != self.term@,
            r > 1 ==> !self.set.automata@[r - 1].accepts(term_in@),
    {
        let automata = self.set.automata@;
        lemma_edits_of(automata, self.term@, term_in@, self.max_edits as int, k);
        lemma_edits_of(automata, self.term@, term_in@, self.max_edits as int, r - 1);
        lemma_edits_of(automata, self.term@, term_in@, self.max_edits as int, 0);
    }

    /// The boost of a term is that of its distance and of the shorter of the two terms; a term
    /// without edits has the full boost.
    pub proof fn boosts_follow_distances(&self, term_in: &[u8], distance: i32)
        requires
            self.wf(),
            call_ensures(FuzzyTermsEnum::<T, S>::edit_distance, (self, term_in), distance),
        ensures
            distance == 0 ==> self.boost_of_term(term_in@) == 0x3f80_0000,
            distance > 0 ==> (self.similarity.characters(term_in@) matches Ok(count) ==> {
                &&& count <= self.set.term_length ==> self.boost_of_term(term_in@)
                    == self.similarity.boost(distance as int, count as int)
                &&& count >= self.set.term_length ==> self.boost_of_term(term_in@)
                    == self.similarity.boost(distance as int, self.set.term_length as int)
            }),
    {
    }
}

} // verus!
