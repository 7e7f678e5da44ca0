use bucket_sort::construct::{
    construct_automatons, ngram_synonyms, synonym_bases, triggers_alternatives, Alternatives,
    Declaration,
};
use bucket_sort::query::{has_end_whitespace, ngrams, query_words, Ngram};
use bucket_sort::split::{split_best_frequency, splits};
use bucket_sort::typos::TypoTolerance;
use bucket_sort::QueryWordAutomaton;

fn is_cjk(c: char) -> bool {
    '\u{4e00}' <= c && c <= '\u{9fff}'
}

fn owned(words: Vec<&str>) -> Vec<String> {
    words.into_iter().map(String::from).collect()
}

fn none() -> Alternatives {
    Alternatives { synonyms: vec![], split: None, concatenation: String::new() }
}

fn shown(automatons: &Vec<QueryWordAutomaton>) -> Vec<(&str, bool, bool, Option<(u16, u16)>)> {
    automatons
        .iter()
        .map(|a| (a.query.as_str(), a.is_exact, a.is_prefix, a.phrase_query))
        .collect()
}

fn declared(declarations: &Vec<Declaration>) -> Vec<(usize, usize, usize, Vec<String>)> {
    declarations
        .iter()
        .map(|d| (d.range.start, d.range.end, d.real_query_index, d.words.clone()))
        .collect()
}

fn ngram_texts(ngrams: &Vec<Ngram>) -> Vec<(usize, usize, &str, &str, bool)> {
    ngrams
        .iter()
        .map(|n| (n.range.start, n.range.end, n.text.as_str(), n.concat.as_str(), n.is_prefix))
        .collect()
}

#[test]
fn white_space_at_the_end_of_a_query() {
    assert!(has_end_whitespace("new "));
    assert!(has_end_whitespace("new\u{3000}"));
    assert!(has_end_whitespace("\n"));
    assert!(has_end_whitespace("new\u{85}"));
    assert!(has_end_whitespace("new\u{200a}"));
    assert!(!has_end_whitespace("new\u{200b}"));
    assert!(!has_end_whitespace("new\u{180e}"));
    assert!(!has_end_whitespace("new york"));
    assert!(!has_end_whitespace(" new"));
    assert!(!has_end_whitespace(""));
}

#[test]
fn words_are_put_in_lower_case() {
    assert_eq!(query_words(&vec!["New", "YORK", "\u{c9}t\u{e9}"]), vec!["new", "york", "\u{e9}t\u{e9}"]);
    assert!(query_words(&vec![]).is_empty());
}

#[test]
fn splits_of_a_word() {
    assert_eq!(splits("abc"), vec![("a", "bc"), ("ab", "c")]);
    assert_eq!(splits("\u{e9}t\u{e9}"), vec![("\u{e9}", "t\u{e9}"), ("\u{e9}t", "\u{e9}")]);
    assert!(splits("a").is_empty());
    assert!(splits("").is_empty());
}

#[test]
fn the_split_with_the_most_frequent_rarer_part_is_the_best() {
    let best = split_best_frequency("newyork", &vec![(9, 0), (8, 1), (5, 4), (3, 9), (1, 1), (0, 2)]);
    assert_eq!(best, Some(("new", "york")));
}

#[test]
fn the_first_of_equal_splits_is_the_best() {
    assert_eq!(split_best_frequency("abcd", &vec![(2, 3), (7, 2), (2, 2)]), Some(("a", "bcd")));
}

#[test]
fn a_split_with_an_unknown_part_is_none() {
    assert_eq!(split_best_frequency("abc", &vec![(0, 5), (7, 0)]), None);
    assert_eq!(split_best_frequency("a", &vec![]), None);
    assert_eq!(split_best_frequency("", &vec![]), None);
    assert_eq!(split_best_frequency("abc", &vec![(0, 5), (1, 1)]), Some(("ab", "c")));
}

#[test]
fn ngrams_of_a_query() {
    let found = ngrams(&owned(vec!["new", "york", "city"]), false, &is_cjk, 3);
    assert_eq!(
        ngram_texts(&found),
        vec![
            (0, 1, "new", "new", false),
            (1, 2, "york", "york", false),
            (2, 3, "city", "city", true),
            (0, 2, "new york", "newyork", false),
            (1, 3, "york city", "yorkcity", true),
            (0, 3, "new york city", "newyorkcity", true),
        ]
    );
}

#[test]
fn ngrams_longer_than_the_query_are_left_out() {
    let found = ngrams(&owned(vec!["new"]), false, &is_cjk, 3);
    assert_eq!(ngram_texts(&found), vec![(0, 1, "new", "new", true)]);
    assert!(ngrams(&vec![], false, &is_cjk, 3).is_empty());
    assert!(ngrams(&owned(vec!["new"]), false, &is_cjk, 0).is_empty());
}

#[test]
fn complete_ngrams_are_no_prefixes() {
    let found = ngrams(&owned(vec!["new", "york"]), true, &is_cjk, 2);
    assert!(found.iter().all(|n| !n.is_prefix));
    let found = ngrams(&owned(vec!["\u{4e2d}\u{6587}"]), false, &is_cjk, 1);
    assert!(!found[0].is_prefix);
    let found = ngrams(&owned(vec!["\u{4e2d}\u{6587}a"]), false, &is_cjk, 1);
    assert!(found[0].is_prefix);
    let found = ngrams(&owned(vec!["\u{4e2d}", "\u{6587}"]), false, &is_cjk, 2);
    assert_eq!(found.iter().map(|n| n.is_prefix).collect::<Vec<bool>>(), vec![false, false, true]);
}

#[test]
fn bases_of_synonyms() {
    let synonyms = fst::Set::from_iter(vec!["new york", "newt", "nyc"]).unwrap();
    let tolerance = TypoTolerance::new(1, true);
    let exact = synonym_bases(&synonyms, "nyd", false, &tolerance);
    assert_eq!(exact, vec![b"nyc".to_vec()]);
    let prefix = synonym_bases(&synonyms, "new", true, &tolerance);
    assert_eq!(prefix, vec![b"new york".to_vec(), b"newt".to_vec()]);
    assert!(synonym_bases(&fst::Set::default(), "new", true, &tolerance).is_empty());
}

#[test]
fn bases_trigger_when_they_have_as_many_words() {
    let found = ngrams(&owned(vec!["new", "yo"]), false, &is_cjk, 2);
    assert!(triggers_alternatives(&found[2], 2));
    assert!(!triggers_alternatives(&found[2], 1));
    assert!(triggers_alternatives(&found[0], 1));
    assert!(!triggers_alternatives(&found[0], 2));
}

#[test]
fn synonyms_come_from_bases_with_as_many_words() {
    let found = ngrams(&owned(vec!["new", "yo"]), false, &is_cjk, 2);
    let read = || {
        vec![
            (1, vec![owned(vec!["novel"])]),
            (2, vec![owned(vec!["nyc"]), owned(vec!["big", "apple"])]),
            (3, vec![owned(vec!["gotham"])]),
            (2, vec![]),
            (2, vec![owned(vec!["manhattan"])]),
        ]
    };
    assert_eq!(
        ngram_synonyms(&found[2], read()),
        vec![owned(vec!["nyc"]), owned(vec!["big", "apple"]), owned(vec!["manhattan"])]
    );
    assert_eq!(ngram_synonyms(&found[0], read()), vec![owned(vec!["novel"])]);
    assert!(ngram_synonyms(&found[0], vec![]).is_empty());
}

#[test]
fn a_synonym_of_one_word_is_no_exact_word() {
    let words = owned(vec!["hi"]);
    let found = ngrams(&words, true, &is_cjk, 1);
    let alternatives = vec![Alternatives { synonyms: vec![owned(vec!["hello"])], ..none() }];
    let (automatons, _) = construct_automatons(&words, true, &is_cjk, &found, &alternatives);
    assert_eq!(shown(&automatons), vec![("hi", true, false, None), ("hello", false, false, None)]);
}

#[test]
fn the_words_of_a_query_come_first() {
    let words = owned(vec!["new", "york"]);
    let found = ngrams(&words, false, &is_cjk, 1);
    let (automatons, declarations) =
        construct_automatons(&words, false, &is_cjk, &found, &vec![none(), none()]);
    assert_eq!(shown(&automatons), vec![("new", true, false, None), ("york", true, true, None)]);
    assert!(declarations.is_empty());
}

#[test]
fn white_space_or_cjk_letters_complete_the_last_word() {
    let words = owned(vec!["new", "york"]);
    let (automatons, _) = construct_automatons(&words, true, &is_cjk, &vec![], &vec![]);
    assert_eq!(shown(&automatons), vec![("new", true, false, None), ("york", true, false, None)]);
    let words = owned(vec!["\u{4e2d}\u{6587}"]);
    let (automatons, _) = construct_automatons(&words, false, &is_cjk, &vec![], &vec![]);
    assert_eq!(shown(&automatons), vec![("\u{4e2d}\u{6587}", true, false, None)]);
}

#[test]
fn alternatives_follow_and_are_declared() {
    let words = owned(vec!["newyork", "city"]);
    let found = ngrams(&words, true, &is_cjk, 2);
    let alternatives = vec![
        Alternatives {
            synonyms: vec![owned(vec!["nyc"]), owned(vec!["big", "apple"])],
            split: Some((String::from("new"), String::from("york"))),
            concatenation: String::from("unused"),
        },
        none(),
        Alternatives {
            synonyms: vec![owned(vec!["gotham"])],
            split: Some((String::from("not"), String::from("used"))),
            concatenation: String::from("newyorkcity"),
        },
    ];
    let (automatons, declarations) =
        construct_automatons(&words, true, &is_cjk, &found, &alternatives);
    assert_eq!(
        shown(&automatons),
        vec![
            ("newyork", true, false, None),
            ("city", true, false, None),
            ("nyc", false, false, None),
            ("big", false, false, None),
            ("apple", false, false, None),
            ("new", true, false, Some((0, 2))),
            ("york", true, false, Some((1, 2))),
            ("gotham", false, false, None),
            ("newyorkcity", true, false, None),
        ]
    );
    assert_eq!(
        declared(&declarations),
        vec![
            (0, 1, 2, owned(vec!["nyc"])),
            (0, 1, 3, owned(vec!["big", "apple"])),
            (0, 1, 5, owned(vec!["new"])),
            (0, 1, 6, owned(vec!["york"])),
            (0, 2, 7, owned(vec!["gotham"])),
            (0, 2, 8, owned(vec!["newyorkcity"])),
        ]
    );
    let mut next = words.len();
    for declaration in declarations.iter() {
        assert_eq!(declaration.real_query_index, next);
        for (i, word) in declaration.words.iter().enumerate() {
            assert_eq!(&automatons[next + i].query, word);
        }
        next += declaration.words.len();
    }
    assert_eq!(next, automatons.len());
}

#[test]
fn a_synonym_without_words_is_declared_alone() {
    let words = owned(vec!["a"]);
    let found = ngrams(&words, true, &is_cjk, 1);
    let alternatives = vec![Alternatives { synonyms: vec![vec![]], ..none() }];
    let (automatons, declarations) =
        construct_automatons(&words, true, &is_cjk, &found, &alternatives);
    assert_eq!(automatons.len(), 1);
    assert_eq!(declared(&declarations), vec![(0, 1, 1, vec![])]);
}
