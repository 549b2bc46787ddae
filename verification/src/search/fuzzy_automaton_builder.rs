//! Building automata that accept the terms within a number of edits of a term.

use vstd::prelude::*;
use vstd::string::*;
use vstd::utf8::{decode_utf8, valid_utf8};

use crate::error::LuceneError;
use crate::util::text::{append_signed, decimal_int};

verus! {

/// The greatest number of edits for which automata can be built.
pub const MAXIMUM_SUPPORTED_DISTANCE: i32 = 2;

/// Accepts or rejects byte strings.
pub trait RunAutomaton {
    /// Whether the automaton accepts a byte string.
    spec fn accepts(&self, bytes: Seq<u8>) -> bool;

    /// Returns whether the automaton accepts a byte string.
    fn run(&self, bytes: &[u8]) -> (r: bool)
        ensures
            r == self.accepts(bytes@),
    ;
}

/// Whether `a` can be made `b` by at most `n` edits. An edit removes, adds or replaces a character
/// or, with `transpositions`, exchanges two neighbours which are not edited otherwise.
pub open spec fn within_edits(a: Seq<char>, b: Seq<char>, n: int, transpositions: bool) -> bool
    decreases a.len() + b.len(),
{
    let i = a.len() as int;
    let j = b.len() as int;
    if i == 0 || j == 0 {
        i <= n && j <= n
    } else {
        ||| a[i - 1] == b[j - 1] && within_edits(a.take(i - 1), b.take(j - 1), n, transpositions)
        ||| n > 0 && within_edits(a.take(i - 1), b, n - 1, transpositions)
        ||| n > 0 && within_edits(a, b.take(j - 1), n - 1, transpositions)
        ||| n > 0 && within_edits(a.take(i - 1), b.take(j - 1), n - 1, transpositions)
        ||| {
            &&& transpositions
            &&& n > 0
            &&& i >= 2
            &&& j >= 2
            &&& a[i - 1] == b[j - 2]
            &&& a[i - 2] == b[j - 1]
            &&& within_edits(a.take(i - 2), b.take(j - 2), n - 1, transpositions)
        }
    }
}

/// Whether `term` starts with `prefix` and goes on with something within `n` edits of `suffix`.
pub open spec fn is_fuzzy_match(
    term: Seq<char>,
    prefix: Seq<char>,
    suffix: Seq<char>,
    n: int,
    transpositions: bool,
) -> bool {
    prefix.is_prefix_of(term) && within_edits(
        term.skip(prefix.len() as int),
        suffix,
        n,
        transpositions,
    )
}

/// Whether `a` accepts the encoded terms which start with `prefix` and go on with something within
/// `n` edits of `suffix`, and nothing else.
pub open spec fn accepts_fuzzy_matches<A: RunAutomaton>(
    a: A,
    prefix: Seq<char>,
    suffix: Seq<char>,
    n: int,
    transpositions: bool,
) -> bool {
    forall|bytes: Seq<u8>| #[trigger]
        a.accepts(bytes) <==> valid_utf8(bytes) && is_fuzzy_match(
            decode_utf8(bytes),
            prefix,
            suffix,
            n,
            transpositions,
        )
}

/// Without edits, only the same text is accepted.
pub proof fn no_edits_is_equality(a: Seq<char>, b: Seq<char>, transpositions: bool)
    ensures
        within_edits(a, b, 0, transpositions) <==> a == b,
    decreases a.len() + b.len(),
{
    let i = a.len() as int;
    let j = b.len() as int;
    if i == 0 || j == 0 {
        if i == 0 && j == 0 {
            assert(a =~= b);
        }
    } else {
        no_edits_is_equality(a.take(i - 1), b.take(j - 1), transpositions);
        if a[i - 1] == b[j - 1] && a.take(i - 1) == b.take(j - 1) {
            assert(a =~= a.take(i - 1).push(a[i - 1]));
            assert(b =~= b.take(j - 1).push(b[j - 1]));
        }
    }
}

/// What is within some edits is within more edits.
pub proof fn more_edits_reach_more(a: Seq<char>, b: Seq<char>, n: int, m: int, transpositions: bool)
    requires
        n <= m,
        within_edits(a, b, n, transpositions),
    ensures
        within_edits(a, b, m, transpositions),
    decreases a.len() + b.len(),
{
    let i = a.len() as int;
    let j = b.len() as int;
    if i > 0 && j > 0 {
        let x = a.take(i - 1);
        let y = b.take(j - 1);
        if a[i - 1] == b[j - 1] && within_edits(x, y, n, transpositions) {
            more_edits_reach_more(x, y, n, m, transpositions);
        } else if n > 0 && within_edits(x, b, n - 1, transpositions) {
            more_edits_reach_more(x, b, n - 1, m - 1, transpositions);
        } else if n > 0 && within_edits(a, y, n - 1, transpositions) {
            more_edits_reach_more(a, y, n - 1, m - 1, transpositions);
        } else if n > 0 && within_edits(x, y, n - 1, transpositions) {
            more_edits_reach_more(x, y, n - 1, m - 1, transpositions);
        } else {
            more_edits_reach_more(a.take(i - 2), b.take(j - 2), n - 1, m - 1, transpositions);
        }
    }
}

/// What an automaton for some edits accepts, one for more edits accepts, too; one without edits
/// accepts the term and nothing else.
pub proof fn automata_accept_by_edits<A: RunAutomaton>(
    a: A,
    b: A,
    prefix: Seq<char>,
    suffix: Seq<char>,
    n: int,
    m: int,
    transpositions: bool,
    bytes: Seq<u8>,
)
    requires
        n <= m,
        accepts_fuzzy_matches(a, prefix, suffix, n, transpositions),
        accepts_fuzzy_matches(b, prefix, suffix, m, transpositions),
    ensures
        a.accepts(bytes) ==> b.accepts(bytes),
        n == 0 ==> (a.accepts(bytes) <==> valid_utf8(bytes) && decode_utf8(bytes) == prefix
            + suffix),
{
    let term = decode_utf8(bytes);
    let rest = term.skip(prefix.len() as int);
    if a.accepts(bytes) {
        more_edits_reach_more(rest, suffix, n, m, transpositions);
        assert(is_fuzzy_match(term, prefix, suffix, m, transpositions));
    }
    if n == 0 {
        no_edits_is_equality(rest, suffix, transpositions);
        if a.accepts(bytes) {
            assert(term =~= prefix + suffix);
        }
        if valid_utf8(bytes) && term == prefix + suffix {
            assert(rest =~= suffix);
            assert(is_fuzzy_match(term, prefix, suffix, n, transpositions));
        }
    }
}

/// Builds automata that accept the terms which start with `prefix` and go on with something
/// within `n` edits of `suffix`.
pub trait LevenshteinCompiler {
    /// The automata.
    type A: RunAutomaton;

    /// The automaton; `None` when there is none for so many edits, and the reason when it is too
    /// complex.
    spec fn compiled(
        &self,
        prefix: Seq<char>,
        suffix: Seq<char>,
        n: i32,
        transpositions: bool,
    ) -> Result<Option<Self::A>, Seq<char>>;

    /// Builds an automaton. With `transpositions`, exchanging two neighbours is one edit.
    ///
    /// # Errors
    ///
    /// The reason why the automaton is too complex.
    fn compile(&self, prefix: &str, suffix: &str, n: i32, transpositions: bool) -> (r: Result<
        Option<Self::A>,
        String,
    >)
        ensures
            match r {
                Ok(a) => {
                    &&& self.compiled(prefix@, suffix@, n, transpositions) == Ok::<
                        Option<Self::A>,
                        Seq<char>,
                    >(a)
                    &&& a matches Some(a) ==> accepts_fuzzy_matches(
                        a,
                        prefix@,
                        suffix@,
                        n as int,
                        transpositions,
                    )
                },
                Err(cause) => self.compiled(prefix@, suffix@, n, transpositions) == Err::<
                    Option<Self::A>,
                    Seq<char>,
                >(cause@),
            },
    ;
}

/// The text for a number of edits that is out of range.
pub open spec fn edits_text(max_edits: i32) -> Seq<char> {
    "max edits must be 0.."@ + decimal_int(MAXIMUM_SUPPORTED_DISTANCE as int) + ", inclusive; got: "@
        + decimal_int(max_edits as int)
}

fn edits_message(max_edits: i32) -> (r: String)
    ensures
        r@ == edits_text(max_edits),
{
    let mut message = "max edits must be 0..".to_owned();
    append_signed(&mut message, MAXIMUM_SUPPORTED_DISTANCE as i64);
    message.append(", inclusive; got: ");
    append_signed(&mut message, max_edits as i64);
    message
}

/// Builds automata that accept the terms within a number of edits of a term.
pub struct FuzzyAutomatonBuilder {
    term: String,
    max_edits: i32,
    prefix: String,
    suffix: String,
    transpositions: bool,
    term_length: i32,
}

impl FuzzyAutomatonBuilder {
    /// The term.
    pub closed spec fn term(&self) -> Seq<char> {
        self.term@
    }

    /// The greatest number of edits.
    pub closed spec fn edits(&self) -> i32 {
        self.max_edits
    }

    /// What terms have to start with.
    pub closed spec fn prefix(&self) -> Seq<char> {
        self.prefix@
    }

    /// What the edits are made to.
    pub closed spec fn suffix(&self) -> Seq<char> {
        self.suffix@
    }

    /// Whether exchanging two neighbours is one edit.
    pub closed spec fn transpositions(&self) -> bool {
        self.transpositions
    }

    /// The number of characters of the term.
    pub closed spec fn length(&self) -> int {
        self.term_length as int
    }

    /// The number of edits is in range.
    pub open spec fn wf(&self) -> bool {
        0 <= self.edits() <= MAXIMUM_SUPPORTED_DISTANCE
    }

    /// Whether `r` is what comes of creating a builder.
    pub open spec fn comes_of(
        term: Seq<char>,
        max_edits: i32,
        prefix_length: i32,
        transpositions: bool,
        r: Result<Self, LuceneError>,
    ) -> bool {
        match r {
            Err(e) => if !(0 <= max_edits <= MAXIMUM_SUPPORTED_DISTANCE) {
                e.is_illegal_argument(edits_text(max_edits))
            } else {
                prefix_length < 0 && e.is_illegal_argument("prefixLength cannot be less than 0"@)
            },
            Ok(b) => {
                let n = if prefix_length < term.len() {
                    prefix_length as int
                } else {
                    term.len() as int
                };
                &&& 0 <= max_edits <= MAXIMUM_SUPPORTED_DISTANCE
                &&& prefix_length >= 0
                &&& b.wf()
                &&& b.term() == term
                &&& b.edits() == max_edits
                &&& b.prefix() == term.take(n)
                &&& b.suffix() == term.skip(n)
                &&& b.transpositions() == transpositions
                &&& b.length() == term.len()
            },
        }
    }

    /// Creates a builder. The first `prefix_length` characters of terms have to be those of the
    /// term.
    ///
    /// # Errors
    ///
    /// [`LuceneError::IllegalArgument`] if the number of edits is out of range or the length of
    /// the prefix is negative.
    pub fn new(term: &str, max_edits: i32, prefix_length: i32, transpositions: bool) -> (r: Result<
        Self,
        LuceneError,
    >)
        requires
            term@.len() <= i32::MAX,
        ensures
            Self::comes_of(term@, max_edits, prefix_length, transpositions, r),
    {
        if max_edits < 0 || max_edits > MAXIMUM_SUPPORTED_DISTANCE {
            return Err(LuceneError::IllegalArgument(edits_message(max_edits)));
        }
        if prefix_length < 0 {
            return Err(
                LuceneError::IllegalArgument("prefixLength cannot be less than 0".to_owned()),
            );
        }
        let length: usize = term.unicode_len();
        let n: usize = if (prefix_length as usize) < length {
            prefix_length as usize
        } else {
            length
        };
        let prefix = term.substring_char(0, n).to_owned();
        let suffix = term.substring_char(n, length).to_owned();
        proof {
            assert(prefix@ =~= term@.take(n as int));
            assert(suffix@ =~= term@.skip(n as int));
        }
        Ok(
            FuzzyAutomatonBuilder {
                term: term.to_owned(),
                max_edits,
                prefix,
                suffix,
                transpositions,
                term_length: length as i32,
            },
        )
    }

    /// Whether `r` is what comes of building the automaton for `n` edits, which accepts the terms
    /// within so many edits of the term, and nothing else.
    pub open spec fn compiles_to<C: LevenshteinCompiler>(
        &self,
        compiler: C,
        n: i32,
        r: Result<C::A, LuceneError>,
    ) -> bool {
        match compiler.compiled(self.prefix(), self.suffix(), n, self.transpositions()) {
            Ok(Some(a)) => r == Ok::<C::A, LuceneError>(a) && self.accepts_within(a, n as int),
            Ok(None) => r matches Err(e) && e.is_illegal_argument(edits_text(n)),
            Err(cause) => r matches Err(LuceneError::ResourceLimit(m)) && m@
                == "Term too complex: "@ + self.term() + " ("@ + cause + ")"@,
        }
    }

    /// Whether `a` accepts the terms within `n` edits of the term, and nothing else.
    pub open spec fn accepts_within<A: RunAutomaton>(&self, a: A, n: int) -> bool {
        accepts_fuzzy_matches(a, self.prefix(), self.suffix(), n, self.transpositions())
    }

    /// Whether the automaton for `n` edits can be built.
    pub open spec fn can_build<C: LevenshteinCompiler>(&self, compiler: C, n: i32) -> bool {
        compiler.compiled(self.prefix(), self.suffix(), n, self.transpositions()) matches Ok(
            Some(_),
        )
    }

    /// Builds the automata for 0 edits up to the greatest number of edits.
    ///
    /// # Errors
    ///
    /// That of the first automaton that cannot be built.
    pub fn build_automaton_set<C: LevenshteinCompiler>(&self, compiler: &C) -> (r: Result<
        Vec<C::A>,
        LuceneError,
    >)
        requires
            self.wf(),
        ensures
            r matches Ok(automata) ==> automata@.len() == self.edits() + 1 && forall|i: int|
                0 <= i < automata@.len() ==> self.compiles_to(
                    *compiler,
                    i as i32,
                    Ok(#[trigger] automata@[i]),
                ),
            r matches Err(e) ==> exists|n: i32|
                0 <= n <= self.edits() && #[trigger] self.compiles_to(*compiler, n, Err(e))
                    && forall|i: i32| 0 <= i < n ==> #[trigger] self.can_build(*compiler, i),
    {
        let mut automata: Vec<C::A> = Vec::with_capacity((self.max_edits + 1) as usize);
        let mut n: i32 = 0;
        while n <= self.max_edits
            invariant
                self.wf(),
                0 <= n <= self.edits() + 1,
                automata@.len() == n,
                forall|i: int|
                    0 <= i < n ==> self.compiles_to(
                        *compiler,
                        i as i32,
                        Ok(#[trigger] automata@[i]),
                    ),
            decreases self.max_edits + 1 - n,
        {
            match self.compile(compiler, n) {
                Ok(a) => {
                    automata.push(a);
                },
                Err(e) => {
                    assert forall|i: i32| 0 <= i < n implies #[trigger] self.can_build(
                        *compiler,
                        i,
                    ) by {
                        assert(self.compiles_to(*compiler, i, Ok(automata@[i as int])));
                    }
                    return Err(e);
                },
            }
            n += 1;
        }
        Ok(automata)
    }

    /// Builds the automaton for the greatest number of edits.
    ///
    /// # Errors
    ///
    /// [`LuceneError::ResourceLimit`] if the automaton is too complex;
    /// [`LuceneError::IllegalArgument`] if there is none for so many edits.
    pub fn build_max_edit_automaton<C: LevenshteinCompiler>(&self, compiler: &C) -> (r: Result<
        C::A,
        LuceneError,
    >)
        ensures
            self.compiles_to(*compiler, self.edits(), r),
    {
        self.compile(compiler, self.max_edits)
    }

    fn compile<C: LevenshteinCompiler>(&self, compiler: &C, n: i32) -> (r: Result<
        C::A,
        LuceneError,
    >)
        ensures
            self.compiles_to(*compiler, n, r),
    {
        match compiler.compile(
            self.prefix.as_str(),
            self.suffix.as_str(),
            n,
            self.transpositions,
        ) {
            Ok(Some(a)) => Ok(a),
            Ok(None) => Err(LuceneError::IllegalArgument(edits_message(n))),
            Err(cause) => {
                let mut message = "Term too complex: ".to_owned();
                message.append(self.term.as_str());
                message.append(" (");
                message.append(cause.as_str());
                message.append(")");
                Err(LuceneError::ResourceLimit(message))
            },
        }
    }

    /// Returns the number of characters of the term.
    pub fn get_term_length(&self) -> (r: i32)
        ensures
            r == self.length(),
    {
        self.term_length
    }
}

} // verus!
