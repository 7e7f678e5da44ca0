use bucket_sort::typos::TypoTolerance;
use levenshtein_automata::Distance;

fn levenshtein(a: &[char], b: &[char]) -> usize {
    let mut row: Vec<usize> = (0..=b.len()).collect();
    for i in 1..=a.len() {
        let mut diagonal = row[0];
        row[0] = i;
        for j in 1..=b.len() {
            let replaced = if a[i - 1] == b[j - 1] { diagonal } else { diagonal + 1 };
            diagonal = row[j];
            row[j] = replaced.min(row[j] + 1).min(row[j - 1] + 1);
        }
    }
    row[b.len()]
}

fn words(letters: &[char], len: usize) -> Vec<Vec<char>> {
    let mut all = vec![vec![]];
    let mut last: Vec<Vec<char>> = vec![vec![]];
    for _ in 0..len {
        let mut longer = Vec::new();
        for word in last.iter() {
            for letter in letters.iter() {
                let mut next = word.clone();
                next.push(*letter);
                longer.push(next);
            }
        }
        all.extend(longer.clone());
        last = longer;
    }
    all
}

fn counts_as(levenshtein: usize, distance: usize, transposition_cost_one: bool) -> bool {
    if transposition_cost_one {
        distance <= levenshtein && levenshtein <= 2 * distance
    } else {
        levenshtein == distance
    }
}

#[test]
fn automatons_count_the_typos_of_short_words() {
    let texts = words(&['a', '\u{e9}', 'c'], 5);
    for max in 0..3u8 {
        for transposition_cost_one in vec![false, true] {
            let tolerance = TypoTolerance::new(max, transposition_cost_one);
            for word in words(&['a', '\u{e9}'], 4) {
                let dfa = tolerance.build_dfa(&word.iter().collect::<String>());
                for text in texts.iter() {
                    let steps = levenshtein(&word, text);
                    match dfa.eval(&text.iter().collect::<String>()) {
                        Distance::Exact(d) => {
                            assert!(d <= max);
                            assert!(counts_as(steps, d as usize, transposition_cost_one));
                            assert_eq!(d == 0, &word == text);
                        }
                        Distance::AtLeast(_) => assert!(steps > max as usize),
                    }
                }
            }
        }
    }
}

#[test]
fn automatons_of_prefixes_count_the_typos_of_a_prefix() {
    let texts = words(&['a', '\u{e9}', 'c'], 5);
    for max in 0..3u8 {
        for transposition_cost_one in vec![false, true] {
            let tolerance = TypoTolerance::new(max, transposition_cost_one);
            for word in words(&['a', '\u{e9}'], 4) {
                let dfa = tolerance.build_prefix_dfa(&word.iter().collect::<String>());
                for text in texts.iter() {
                    let accepted = dfa.eval(&text.iter().collect::<String>());
                    assert_eq!(accepted == Distance::Exact(0), text.starts_with(&word));
                    if let Distance::Exact(d) = accepted {
                        assert!(d <= max);
                        assert!((0..=text.len()).any(|k| {
                            let steps = levenshtein(&word, &text[..k]);
                            counts_as(steps, d as usize, transposition_cost_one)
                        }));
                    }
                }
            }
        }
    }
}

#[test]
fn automatons_without_typos_accept_the_word_alone() {
    let tolerance = TypoTolerance::new(2, true);
    let dfa = tolerance.build_exact_dfa("ab");
    for text in words(&['a', 'b'], 4) {
        let text: String = text.iter().collect();
        assert_eq!(dfa.eval(&text) == Distance::Exact(0), text == "ab");
        assert_eq!(matches!(dfa.eval(&text), Distance::Exact(_)), text == "ab");
    }
}

#[test]
fn two_letters_that_change_places_can_count_once() {
    assert_eq!(TypoTolerance::new(2, true).build_dfa("abcd").eval("badc"), Distance::Exact(2));
    assert_eq!(TypoTolerance::new(3, false).build_dfa("abcd").eval("badc"), Distance::Exact(3));
}
