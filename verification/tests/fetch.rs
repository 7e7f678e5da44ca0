use std::borrow::Cow;
use std::ops::Deref;
use std::rc::Rc;

use bucket_sort::fetch::{fetch_matches, lookups, FetchedPostings, Lookup, PostingsSource};
use bucket_sort::typos::TypoTolerance;
use bucket_sort::words::{all_words, search, search_with_first_byte};
use bucket_sort::{DocIndex, QueryWordAutomaton};
use levenshtein_automata::Distance;
use sdset::SetBuf;

fn index(document_id: u64, word_index: u16) -> DocIndex {
    DocIndex { document_id, attribute: 0, word_index, char_index: 0, char_length: 3 }
}

fn words(words: Vec<&str>) -> fst::Set {
    fst::Set::from_iter(words).unwrap()
}

fn texts(found: &Vec<Lookup>) -> Vec<String> {
    found.iter().map(|l| String::from_utf8(l.input.clone()).unwrap()).collect()
}

fn fetched(input: &str, distance: u8, is_exact: bool, indexes: Vec<DocIndex>) -> FetchedPostings<'static> {
    FetchedPostings {
        input: Rc::from(input.as_bytes()),
        distance,
        is_exact,
        matches: Rc::new(Cow::Owned(SetBuf::new_unchecked(indexes))),
    }
}

#[test]
fn constructors_of_automatons() {
    let exact = QueryWordAutomaton::exact("hello");
    assert_eq!(exact.query, "hello");
    assert!(exact.is_exact && !exact.is_prefix && exact.phrase_query.is_none());
    let prefix = QueryWordAutomaton::exact_prefix("hel");
    assert_eq!(prefix.query, "hel");
    assert!(prefix.is_exact && prefix.is_prefix && prefix.phrase_query.is_none());
    let derived = QueryWordAutomaton::non_exact("hi");
    assert_eq!(derived.query, "hi");
    assert!(!derived.is_exact && !derived.is_prefix && derived.phrase_query.is_none());
}

#[test]
fn automaton_of_a_word_accepts_typos() {
    let dfa = QueryWordAutomaton::exact("hello").dfa(&TypoTolerance::new(1, true));
    assert_eq!(dfa.eval("hello"), Distance::Exact(0));
    assert_eq!(dfa.eval("helo"), Distance::Exact(1));
    assert_eq!(dfa.eval("ehllo"), Distance::Exact(1));
    assert_eq!(dfa.eval("heo"), Distance::AtLeast(2));
    assert_eq!(dfa.eval("helloworld"), Distance::AtLeast(2));
}

#[test]
fn transpositions_can_cost_two_typos() {
    let automaton = QueryWordAutomaton::exact("hello");
    assert_eq!(automaton.dfa(&TypoTolerance::new(1, false)).eval("ehllo"), Distance::AtLeast(2));
    assert_eq!(automaton.dfa(&TypoTolerance::new(2, false)).eval("ehllo"), Distance::Exact(2));
}

#[test]
fn typos_are_insertions_deletions_and_replacements() {
    let dfa = TypoTolerance::new(3, false).build_dfa("kitten");
    assert_eq!(dfa.eval("kitten"), Distance::Exact(0));
    assert_eq!(dfa.eval("sitting"), Distance::Exact(3));
    assert_eq!(dfa.eval("mitten"), Distance::Exact(1));
    assert_eq!(dfa.eval("kit"), Distance::Exact(3));
    assert_eq!(dfa.eval("ikttne"), Distance::AtLeast(4));
    assert_eq!(dfa.eval("ki"), Distance::AtLeast(4));
    let dfa = TypoTolerance::new(1, false).build_dfa("\u{e9}t\u{e9}");
    assert_eq!(dfa.eval("et\u{e9}"), Distance::Exact(1));
    assert_eq!(dfa.eval("ete"), Distance::AtLeast(2));
}

#[test]
fn an_automaton_of_a_prefix_can_pass_over_the_nearest_prefix() {
    let dfa = TypoTolerance::new(2, true).build_prefix_dfa("aab");
    assert_eq!(dfa.eval("b"), Distance::Exact(2));
    assert_eq!(dfa.eval("bx"), Distance::AtLeast(3));
}

#[test]
fn automaton_of_a_prefix_accepts_what_starts_with_it() {
    let dfa = QueryWordAutomaton::exact_prefix("hel").dfa(&TypoTolerance::new(1, true));
    assert_eq!(dfa.eval("hel"), Distance::Exact(0));
    assert_eq!(dfa.eval("helloworld"), Distance::Exact(0));
    assert_eq!(dfa.eval("hallo"), Distance::Exact(1));
    assert_eq!(dfa.eval("world"), Distance::AtLeast(2));
}

#[test]
fn automaton_of_a_phrase_accepts_the_word_alone() {
    let mut automaton = QueryWordAutomaton::exact_prefix("hello");
    automaton.phrase_query = Some((0, 2));
    let dfa = automaton.dfa(&TypoTolerance::new(2, true));
    assert_eq!(dfa.eval("hello"), Distance::Exact(0));
    assert_eq!(dfa.eval("helo"), Distance::AtLeast(1));
    assert_eq!(dfa.eval("helloworld"), Distance::AtLeast(1));
}

#[test]
fn words_come_in_order() {
    let set = words(vec!["a", "ab", "b", "ba", "c"]);
    let all = all_words(&set);
    assert_eq!(all, vec![b"a".to_vec(), b"ab".to_vec(), b"b".to_vec(), b"ba".to_vec(), b"c".to_vec()]);
    assert!(all_words(&fst::Set::default()).is_empty());
}

#[test]
fn searches_find_the_accepted_words() {
    let set = words(vec!["cat", "cats", "dog", "rat"]);
    let dfa = QueryWordAutomaton::exact("cat").dfa(&TypoTolerance::new(1, true));
    assert_eq!(search(&set, &dfa), vec![b"cat".to_vec(), b"cats".to_vec(), b"rat".to_vec()]);
    assert_eq!(search_with_first_byte(&set, &dfa, b'c'), vec![b"cat".to_vec(), b"cats".to_vec()]);
    assert_eq!(search_with_first_byte(&set, &dfa, b'r'), vec![b"rat".to_vec()]);
    assert!(search_with_first_byte(&set, &dfa, b'd').is_empty());
    assert!(search_with_first_byte(&set, &dfa, 255).is_empty());
}

#[test]
fn the_greatest_first_byte_has_no_upper_bound() {
    let set = fst::Set::from_iter(vec![vec![254u8], vec![255], vec![255, 0]]).unwrap();
    let dfa = QueryWordAutomaton::exact("").dfa(&TypoTolerance::new(2, true));
    let found = search_with_first_byte(&set, &dfa, 255);
    assert!(found.iter().all(|word| word[0] == 255));
}

#[test]
fn a_prefix_of_one_byte_asks_for_the_cached_list() {
    let set = words(vec!["hello", "hi"]);
    let automaton = QueryWordAutomaton::exact_prefix("h");
    let found = lookups(&automaton, &set, &TypoTolerance::new(0, true));
    assert_eq!(found.len(), 1);
    assert_eq!(found[0].source, PostingsSource::PrefixCache);
    assert_eq!(found[0].input, vec![b'h', 0, 0, 0]);
    assert_eq!(found[0].distance, 0);
    assert!(found[0].is_exact);
}

#[test]
fn a_prefix_of_one_letter_of_two_bytes_is_searched() {
    let set = words(vec!["\u{e9}cole", "\u{e9}t\u{e9}"]);
    let automaton = QueryWordAutomaton::exact_prefix("\u{e9}");
    let found = lookups(&automaton, &set, &TypoTolerance::new(0, true));
    assert_eq!(texts(&found), vec!["\u{e9}cole", "\u{e9}t\u{e9}"]);
    assert!(found.iter().all(|l| l.source == PostingsSource::Words && !l.is_exact));
}

#[test]
fn a_single_letter_that_is_no_prefix_is_searched() {
    let set = words(vec!["a", "ab", "b"]);
    let found = lookups(&QueryWordAutomaton::exact("a"), &set, &TypoTolerance::new(0, true));
    assert_eq!(texts(&found), vec!["a"]);
    assert_eq!(found[0].source, PostingsSource::Words);
    assert!(found[0].is_exact);
}

#[test]
fn words_are_looked_up_with_their_typos() {
    let set = words(vec!["ello", "hallo", "hello", "hellos", "help", "jello"]);
    let found = lookups(&QueryWordAutomaton::exact("hello"), &set, &TypoTolerance::new(1, true));
    assert_eq!(texts(&found), vec!["hallo", "hello", "hellos"]);
    let distances: Vec<u8> = found.iter().map(|l| l.distance).collect();
    assert_eq!(distances, vec![1, 0, 1]);
    let exact: Vec<bool> = found.iter().map(|l| l.is_exact).collect();
    assert_eq!(exact, vec![false, true, false]);
}

#[test]
fn a_longer_word_is_not_an_exact_lookup_of_its_prefix() {
    let set = words(vec!["hel", "hello"]);
    let found = lookups(&QueryWordAutomaton::exact_prefix("hel"), &set, &TypoTolerance::new(0, true));
    assert_eq!(texts(&found), vec!["hel", "hello"]);
    assert_eq!((found[0].distance, found[0].is_exact), (0, true));
    assert_eq!((found[1].distance, found[1].is_exact), (0, false));
}

#[test]
fn derived_words_are_never_exact_lookups() {
    let set = words(vec!["hello"]);
    let found = lookups(&QueryWordAutomaton::non_exact("hello"), &set, &TypoTolerance::new(0, true));
    assert_eq!(texts(&found), vec!["hello"]);
    assert!(!found[0].is_exact);
}

#[test]
fn fetched_lists_make_matches() {
    let found = fetch_matches(&vec![vec![
        fetched("hello", 0, true, vec![index(1, 0), index(1, 3), index(2, 7)]),
        fetched("hallo", 1, false, vec![index(3, 4)]),
    ]]);
    let shown: Vec<(u64, usize, u8, bool)> =
        found.iter().map(|m| (m.document_id, m.query_index, m.distance, m.is_exact)).collect();
    assert_eq!(shown, vec![(1, 0, 0, true), (2, 0, 0, true), (3, 0, 1, false)]);
    assert_eq!(found[0].postings_list.deref().as_slice(), &[index(1, 0), index(1, 3)]);
    assert_eq!(found[1].postings_list.deref().as_slice(), &[index(2, 7)]);
    assert_eq!(found[2].postings_list.input(), b"hallo");
}

#[test]
fn later_words_match_only_where_the_first_one_was_found() {
    let found = fetch_matches(&vec![
        vec![fetched("new", 0, true, vec![index(2, 0), index(5, 0)])],
        vec![
            fetched("york", 0, true, vec![index(1, 1), index(2, 1), index(5, 9), index(6, 1)]),
            fetched("yorks", 1, false, vec![index(5, 3), index(7, 3)]),
        ],
        vec![fetched("city", 0, true, vec![index(1, 2), index(5, 2), index(7, 2)])],
    ]);
    let shown: Vec<(usize, u64)> = found.iter().map(|m| (m.query_index, m.document_id)).collect();
    assert_eq!(shown, vec![(0, 2), (0, 5), (1, 2), (1, 5), (1, 5), (2, 5)]);
}

#[test]
fn groups_of_one_document_stay_apart_when_another_one_stands_between() {
    let found = fetch_matches(&vec![vec![fetched(
        "a",
        0,
        true,
        vec![index(1, 0), index(2, 0), index(1, 1)],
    )]]);
    let documents: Vec<u64> = found.iter().map(|m| m.document_id).collect();
    assert_eq!(documents, vec![1, 2, 1]);
    assert_eq!(found[2].postings_list.deref().as_slice(), &[index(1, 1)]);
}

#[test]
fn a_first_word_without_postings_leaves_no_match() {
    let found = fetch_matches(&vec![vec![], vec![fetched("york", 0, true, vec![index(1, 1)])]]);
    assert!(found.is_empty());
    assert!(fetch_matches(&vec![]).is_empty());
}
