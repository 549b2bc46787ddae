use std::sync::Arc;

use rucene::error::LuceneError;
use rucene::search::disjunction_matches_iterator::BytesRefIterator;
use rucene::search::fuzzy_automaton_builder::{
    FuzzyAutomatonBuilder, LevenshteinCompiler, RunAutomaton, MAXIMUM_SUPPORTED_DISTANCE,
};
use rucene::search::fuzzy_query::{
    default_rewrite_method, FuzzyEnumeration, FuzzyQuery, FuzzyTerm, RewriteMethod,
    DEFAULT_MAX_EXPANSIONS,
};
use rucene::search::fuzzy_terms_enum::{
    shared_automata, AutomatonAttribute, AutomatonAttributeImpl, BoostAttributes, FuzzyTerms,
    FuzzyTermsEnum, TermSimilarity,
};
use rucene::search::index_searcher::UNIT_BOOST;
use rucene::util::models::{Integer, Sequence};

#[derive(Debug)]
struct Edits {
    prefix: String,
    suffix: String,
    n: i32,
}

fn distance(a: &[u8], b: &[u8]) -> i32 {
    let mut row: Vec<i32> = (0..=b.len() as i32).collect();
    for i in 0..a.len() {
        let mut last = row[0];
        row[0] += 1;
        for j in 0..b.len() {
            let cost = if a[i] == b[j] { last } else { last + 1 };
            last = row[j + 1];
            row[j + 1] = cost.min(last + 1).min(row[j] + 1);
        }
    }
    row[b.len()]
}

impl RunAutomaton for Edits {
    fn accepts(&self, _bytes: Sequence<u8>) -> bool {
        unreachable!()
    }

    fn run(&self, bytes: &[u8]) -> bool {
        bytes.starts_with(self.prefix.as_bytes())
            && distance(&bytes[self.prefix.len()..], self.suffix.as_bytes()) <= self.n
    }
}

struct Compiler {
    limit: usize,
    supported: i32,
}

impl LevenshteinCompiler for Compiler {
    type A = Edits;

    fn compiled(&self, _prefix: Sequence<char>, _suffix: Sequence<char>, _n: i32, _transpositions: bool) -> Result<Option<Self::A>, Sequence<char>> {
        unreachable!()
    }

    fn compile(
        &self,
        prefix: &str,
        suffix: &str,
        n: i32,
        _transpositions: bool,
    ) -> Result<Option<Edits>, String> {
        if suffix.len() > self.limit {
            return Err("too many states".to_string());
        }
        if n > self.supported {
            return Ok(None);
        }
        Ok(Some(Edits { prefix: prefix.to_string(), suffix: suffix.to_string(), n }))
    }
}

const COMPILER: Compiler = Compiler { limit: 20, supported: 2 };

fn term(text: &str) -> FuzzyTerm {
    FuzzyTerm { field: "body".to_string(), text: text.to_string() }
}

fn argument_error<T>(r: Result<T, LuceneError>) -> String {
    match r {
        Err(LuceneError::IllegalArgument(m)) => m,
        _ => panic!(),
    }
}

#[test]
fn fuzzy_query_checks_its_arguments() {
    assert_eq!(
        argument_error(FuzzyQuery::with_max_edits(term("a"), 3)),
        "maxEdits must be between 0 and 2"
    );
    assert_eq!(
        argument_error(FuzzyQuery::with_max_edits(term("a"), -1)),
        "maxEdits must be between 0 and 2"
    );
    assert_eq!(
        argument_error(FuzzyQuery::with_prefix_length(term("a"), 1, -1)),
        "prefixLength cannot be negative."
    );
    assert_eq!(
        argument_error(FuzzyQuery::with_expansions(term("a"), 1, 0, 0, true)),
        "maxExpansions must be positive."
    );
    assert_eq!(MAXIMUM_SUPPORTED_DISTANCE, 2);
}

#[test]
fn fuzzy_query_has_defaults() {
    let q = FuzzyQuery::new(term("lucene")).unwrap();
    assert_eq!(q.get_max_edits(), 2);
    assert_eq!(q.get_prefix_length(), 0);
    assert_eq!(q.get_max_expansions(), 50);
    assert!(q.get_transpositions());
    assert_eq!(q.get_term().text, "lucene");
    assert_eq!(q.get_field(), "body");
    assert_eq!(
        *q.get_rewrite_method(),
        RewriteMethod::TopTermsBlendedFreqScoring(DEFAULT_MAX_EXPANSIONS)
    );
    assert_eq!(q.to_query_string("body"), "lucene~2");
    assert_eq!(q.to_query_string("title"), "body:lucene~2");
}

#[test]
fn fuzzy_queries_are_equal_with_equal_parts() {
    let a = FuzzyQuery::new(term("a")).unwrap();
    let b = FuzzyQuery::new(term("a")).unwrap();
    let c = FuzzyQuery::with_max_edits(term("a"), 1).unwrap();
    assert!(a.query_eq(&b));
    assert!(!a.query_eq(&c));
    assert!(!a.query_eq(&FuzzyQuery::new(term("b")).unwrap()));
    let d = FuzzyQuery::with_rewrite_method(
        term("a"),
        2,
        0,
        50,
        true,
        Arc::new(RewriteMethod::Other(4)),
    )
    .unwrap();
    assert!(!a.query_eq(&d));
    assert_eq!(*default_rewrite_method(3), RewriteMethod::TopTermsBlendedFreqScoring(3));
    let fold = |h: u64, v: u64| h.wrapping_mul(31).wrapping_add(v);
    let expected = [2u64, 0, 50, 0, 9].iter().fold(5, |h, v| fold(h, *v));
    assert_eq!(a.query_hash(5, 9), expected);
}

#[test]
fn fuzzy_automaton_accepts_terms_within_the_edits() {
    let q = FuzzyQuery::with_prefix_length(term("house"), 1, 2).unwrap();
    let automaton = q.get_automata(&COMPILER).unwrap();
    assert!(automaton.run(b"house"));
    assert!(automaton.run(b"horse"));
    assert!(!automaton.run(b"mouse"));
    assert!(!automaton.run(b"hose1"));
    assert_eq!(
        argument_error(FuzzyQuery::get_fuzzy_automaton("a", 3, 0, true, &COMPILER)),
        "max edits must be 0..2, inclusive; got: 3"
    );
    assert_eq!(
        argument_error(FuzzyQuery::get_fuzzy_automaton("a", 1, -1, true, &COMPILER)),
        "prefixLength cannot be less than 0"
    );
    let weak = Compiler { limit: 2, supported: 0 };
    assert_eq!(
        argument_error(FuzzyQuery::get_fuzzy_automaton("a", 1, 0, true, &weak)),
        "max edits must be 0..2, inclusive; got: 1"
    );
    match FuzzyQuery::get_fuzzy_automaton("abcd", 1, 0, true, &weak) {
        Err(LuceneError::ResourceLimit(m)) => {
            assert_eq!(m, "Term too complex: abcd (too many states)")
        }
        _ => panic!(),
    }
}

#[test]
fn builder_builds_one_automaton_for_each_number_of_edits() {
    let builder = FuzzyAutomatonBuilder::new("h\u{e9}llo", 2, 9, true).unwrap();
    assert_eq!(builder.get_term_length(), 5);
    let set = builder.build_automaton_set(&COMPILER).unwrap();
    assert_eq!(set.len(), 3);
    assert_eq!(set.iter().map(|a| a.n).collect::<Vec<_>>(), vec![0, 1, 2]);
    assert_eq!(set[0].prefix, "h\u{e9}llo");
    assert_eq!(set[0].suffix, "");
    assert_eq!(builder.build_max_edit_automaton(&COMPILER).unwrap().n, 2);
    let builder = FuzzyAutomatonBuilder::new("hello", 1, 2, true).unwrap();
    let set = builder.build_automaton_set(&COMPILER).unwrap();
    assert_eq!((set[1].prefix.as_str(), set[1].suffix.as_str()), ("he", "llo"));
}

#[test]
fn automata_are_built_once_and_shared() {
    let mut attribute: Option<AutomatonAttributeImpl<Edits>> = None;
    let builder = || FuzzyAutomatonBuilder::new("abc", 1, 0, true);
    let first = shared_automata(&mut attribute, &builder, &COMPILER).unwrap();
    assert_eq!(first.term_length, 3);
    let failing = || FuzzyAutomatonBuilder::new("abc", 9, 0, true);
    let second = shared_automata(&mut attribute, &failing, &COMPILER).unwrap();
    assert!(Arc::ptr_eq(&first, &second));
    let mut held = attribute.unwrap();
    assert!(held.get_automaton_set().is_some());
    held.clear();
    assert!(held.get_automaton_set().is_none());
    assert!(held.init(&failing, &COMPILER).is_err());
    assert!(AutomatonAttributeImpl::<Edits>::new().get_automaton_set().is_none());
}

struct Sorted(Vec<&'static str>);

impl BytesRefIterator for Sorted {
    fn remaining(&self) -> Sequence<Sequence<u8>> {
        unreachable!()
    }

    fn inv(&self) -> bool {
        unreachable!()
    }

    fn infallible(&self) -> bool {
        unreachable!()
    }

    fn next(&mut self) -> Result<Option<Vec<u8>>, LuceneError> {
        if self.0.is_empty() {
            return Ok(None);
        }
        Ok(Some(self.0.remove(0).as_bytes().to_vec()))
    }
}

struct Dictionary(Vec<&'static str>);

impl FuzzyTerms for Dictionary {
    type A = Edits;
    type E = Sorted;

    fn accepted(&self, _automaton: Self::A, _last: Option<Sequence<u8>>, _e: Self::E) -> bool {
        unreachable!()
    }

    fn alone(&self, _term: Sequence<u8>, _e: Self::E) -> bool {
        unreachable!()
    }

    fn infallible(&self) -> bool {
        unreachable!()
    }

    fn single(&self, term: &[u8]) -> Result<Sorted, LuceneError> {
        Ok(Sorted(self.0.iter().copied().filter(|t| t.as_bytes() == term).collect()))
    }

    fn intersect(&self, automaton: &Edits, last: Option<&[u8]>) -> Result<Sorted, LuceneError> {
        let accepted = self.0.iter().copied().filter(|t| automaton.run(t.as_bytes()));
        Ok(Sorted(accepted.filter(|t| last.map_or(true, |l| t.as_bytes() > l)).collect()))
    }
}

struct Hundredths;

impl TermSimilarity for Hundredths {
    fn boost(&self, _edits: Integer, _length: Integer) -> i32 {
        unreachable!()
    }

    fn characters(&self, _term: Sequence<u8>) -> Result<i32, LuceneError> {
        unreachable!()
    }

    fn boost_of(&self, edits: i32, length: i32) -> i32 {
        100 - 100 * edits / length
    }

    fn code_point_count(&self, term: &[u8]) -> Result<i32, LuceneError> {
        match std::str::from_utf8(term) {
            Ok(text) => Ok(text.chars().count() as i32),
            Err(_) => Err(LuceneError::IllegalArgument("not text".to_string())),
        }
    }
}

const WORDS: [&str; 7] = ["hoUsE", "horse", "hose", "house", "mouse", "rose", "zebra"];

fn terms_of(text: &str) -> FuzzyTermsEnum<Dictionary, Hundredths> {
    let terms = Dictionary(WORDS.to_vec());
    let bytes = text.as_bytes().to_vec();
    FuzzyTermsEnum::new(terms, Hundredths, &COMPILER, text, bytes, 2, 0, true).unwrap()
}

fn next(terms: &mut FuzzyTermsEnum<Dictionary, Hundredths>) -> Option<(String, i32)> {
    let term = terms.next().unwrap()?;
    Some((String::from_utf8(term).unwrap(), terms.get_boost()))
}

#[test]
fn edit_distance_is_the_least_number_of_edits() {
    let terms = terms_of("house");
    assert_eq!(terms.max_edits, 2);
    assert_eq!(terms.edit_distance(b"house"), 0);
    assert_eq!(terms.edit_distance(b"mouse"), 1);
    assert_eq!(terms.edit_distance(b"moose"), 2);
    assert_eq!(terms.edit_distance(b"unrelated"), 2);
}

#[test]
fn similar_terms_are_enumerated_with_boosts() {
    let mut terms = terms_of("house");
    assert_eq!(terms.get_boost(), UNIT_BOOST);
    assert_eq!(next(&mut terms), Some(("hoUsE".to_string(), 60)));
    assert_eq!(next(&mut terms), Some(("horse".to_string(), 80)));
    assert_eq!(next(&mut terms), Some(("hose".to_string(), 75)));
    assert_eq!(next(&mut terms), Some(("house".to_string(), UNIT_BOOST)));
    assert_eq!(next(&mut terms), Some(("mouse".to_string(), 80)));
    assert_eq!(next(&mut terms), Some(("rose".to_string(), 50)));
    assert_eq!(next(&mut terms), None);
}

#[test]
fn fewer_edits_are_asked_for_as_boosts_rise() {
    let mut terms = terms_of("house");
    terms.set_max_non_competitive_boost(70);
    assert_eq!(next(&mut terms).unwrap().0, "hoUsE");
    assert_eq!((terms.max_edits, terms.bottom), (2, 70));
    assert_eq!(next(&mut terms).unwrap().0, "horse");
    assert_eq!(terms.max_edits, 1);
    terms.atts.competitive_term = Some(b"i".to_vec());
    terms.set_max_non_competitive_boost(80);
    assert_eq!(next(&mut terms).unwrap().0, "hose");
    assert_eq!(next(&mut terms).unwrap().0, "house");
    assert_eq!(next(&mut terms).unwrap().0, "mouse");
    assert_eq!(terms.max_edits, 1);
    let mut terms = terms_of("house");
    terms.atts.competitive_term = Some(b"a".to_vec());
    terms.set_max_non_competitive_boost(80);
    assert_eq!(next(&mut terms).unwrap().0, "hoUsE");
    assert_eq!(next(&mut terms).unwrap().0, "house");
    assert_eq!(terms.max_edits, 0);
    assert_eq!(next(&mut terms), None);
}

#[test]
fn exact_queries_enumerate_one_term() {
    let mut attribute = None;
    let terms = || Dictionary(WORDS.to_vec());
    let q = FuzzyQuery::with_max_edits(term("rose"), 0).unwrap();
    let bytes = b"rose".to_vec();
    let atts = BoostAttributes::new();
    match q.get_terms_enum_with_atts(terms(), Hundredths, &COMPILER, &mut attribute, atts, bytes) {
        Ok(FuzzyEnumeration::Exact(e)) => assert_eq!(e.0, vec!["rose"]),
        _ => panic!(),
    }
    assert!(attribute.is_none());
    let q = FuzzyQuery::with_prefix_length(term("rose"), 1, 1).unwrap();
    let bytes = b"rose".to_vec();
    let atts = BoostAttributes::new();
    match q.get_terms_enum_with_atts(terms(), Hundredths, &COMPILER, &mut attribute, atts, bytes) {
        Ok(FuzzyEnumeration::Fuzzy(mut e)) => {
            assert_eq!(next(&mut e), Some(("rose".to_string(), UNIT_BOOST)));
            assert_eq!(next(&mut e), None);
        }
        _ => panic!(),
    }
    assert!(attribute.is_some());
    let r = FuzzyTermsEnum::new(terms(), Hundredths, &COMPILER, "a", b"a".to_vec(), 3, 0, true);
    assert_eq!(argument_error(r), "max edits must be 0..2, inclusive; got: 3");
}

fn matched(text: &str, max_edits: i32, words: &[&'static str]) -> Vec<String> {
    let q = FuzzyQuery::with_max_edits(term(text), max_edits).unwrap();
    let words = Dictionary(words.to_vec());
    let bytes = text.as_bytes().to_vec();
    let atts = BoostAttributes::new();
    let mut found = q
        .get_terms_enum_with_atts(words, Hundredths, &COMPILER, &mut None, atts, bytes)
        .ok()
        .unwrap();
    let mut all = Vec::new();
    while let Some(term) = found.next().unwrap() {
        all.push(String::from_utf8(term).unwrap());
    }
    all
}

#[test]
fn short_terms_match_only_with_fewer_edits_than_characters() {
    assert_eq!(matched("abcd", 2, &["ab", "abc", "abcd", "abcdef"]), vec!["abc", "abcd", "abcdef"]);
    assert_eq!(matched("a", 2, &["a", "abc", "b"]), vec!["a"]);
    assert_eq!(matched("ab", 1, &["a", "ab", "abc", "b"]), vec!["ab", "abc"]);
    assert_eq!(matched("ab", 0, &["a", "ab", "abc"]), vec!["ab"]);
    assert!(matched("a", 1, &["b", "c", "d"]).is_empty());
}
