//! Sets of words that automata search.

use fst::{IntoStreamer, Set as FstSet};
use levenshtein_automata::DFA;
use vstd::prelude::*;

use crate::typos::accepted;

verus! {

/// `fst::Set`, an ordered set of byte strings.
#[verifier::external_type_specification]
#[verifier::external_body]
pub struct ExFstSet(FstSet);

/// The words of a set that `fst` has built.
pub uninterp spec fn fst_words(set: &FstSet) -> Set<Seq<u8>>;

/// Whether `a` comes before `b` in the order of a dictionary.
pub open spec fn precedes(a: Seq<u8>, b: Seq<u8>) -> bool {
    exists|k: int| #[trigger] first_difference(a, b, k)
}

/// Whether the two texts agree up to `k`, where `a` ends or has the smaller byte.
pub open spec fn first_difference(a: Seq<u8>, b: Seq<u8>, k: int) -> bool {
    &&& 0 <= k <= a.len()
    &&& k < b.len()
    &&& forall|i: int| 0 <= i < k ==> #[trigger] a[i] == b[i]
    &&& k == a.len() || a[k] < b[k]
}

/// The texts of several words.
pub open spec fn texts(words: Seq<Vec<u8>>) -> Seq<Seq<u8>> {
    words.map_values(|word: Vec<u8>| word@)
}

/// Whether these are the words of a set, each once, in the order of a dictionary.
pub open spec fn listing(words: Seq<Vec<u8>>, set: Set<Seq<u8>>) -> bool {
    &&& texts(words).to_set() == set
    &&& forall|i: int, j: int|
        0 <= i < j < words.len() ==> precedes(#[trigger] words[i]@, #[trigger] words[j]@)
}

/// Calls `fst::Set::search` with an automaton and `ge` with a lower bound, and collects the stream:
/// in the order of a dictionary, the words that the automaton accepts and that do not come before
/// the bound.
#[verifier::external_body]
fn search_from(set: &FstSet, dfa: &DFA, lower: &[u8]) -> (words: Vec<Vec<u8>>)
    ensures
        listing(
            words@,
            fst_words(set).filter(
                |word: Seq<u8>| accepted(dfa).dom().contains(word) && !precedes(word, lower@),
            ),
        ),
{
    set.search(dfa).ge(lower).into_stream().into_bytes()
}

/// Calls `fst::Set::search` with an automaton, `ge` with a lower and `lt` with an upper bound, and
/// collects the stream: in the order of a dictionary, the words that the automaton accepts, that do
/// not come before the lower bound and that come before the upper one.
#[verifier::external_body]
fn search_between(set: &FstSet, dfa: &DFA, lower: &[u8], upper: &[u8]) -> (words: Vec<Vec<u8>>)
    ensures
        listing(
            words@,
            fst_words(set).filter(
                |word: Seq<u8>|
                    accepted(dfa).dom().contains(word) && !precedes(word, lower@) && precedes(
                        word,
                        upper@,
                    ),
            ),
        ),
{
    set.search(dfa).ge(lower).lt(upper).into_stream().into_bytes()
}

/// Calls `into_stream` of `fst::Set` and collects the stream: all words, in the order of a
/// dictionary.
#[verifier::external_body]
fn stream_all(set: &FstSet) -> (words: Vec<Vec<u8>>)
    ensures
        listing(words@, fst_words(set)),
{
    set.into_stream().into_bytes()
}

/// A text comes before a text of one byte when it is empty or starts with a smaller byte.
proof fn lemma_precedes_byte(word: Seq<u8>, byte: u8)
    ensures
        precedes(word, seq![byte]) <==> word.len() == 0 || word[0] < byte,
{
    if word.len() == 0 || word[0] < byte {
        assert(first_difference(word, seq![byte], 0));
    }
}

/// All words of a set, in the order of a dictionary.
pub fn all_words(set: &FstSet) -> (words: Vec<Vec<u8>>)
    ensures
        listing(words@, fst_words(set)),
{
    stream_all(set)
}

/// The words of a set that an automaton accepts, in the order of a dictionary.
pub fn search(set: &FstSet, dfa: &DFA) -> (words: Vec<Vec<u8>>)
    ensures
        listing(
            words@,
            fst_words(set).filter(|word: Seq<u8>| accepted(dfa).dom().contains(word)),
        ),
{
    let lower: [u8; 0] = [];
    let words = search_from(set, dfa, &lower);
    assert(fst_words(set).filter(
        |word: Seq<u8>| accepted(dfa).dom().contains(word) && !precedes(word, lower@),
    ) =~= fst_words(set).filter(|word: Seq<u8>| accepted(dfa).dom().contains(word)));
    words
}

/// The words of a set that an automaton accepts and that start with this byte, in the order of a
/// dictionary.
pub fn search_with_first_byte(set: &FstSet, dfa: &DFA, byte: u8) -> (words: Vec<Vec<u8>>)
    ensures
        listing(
            words@,
            fst_words(set).filter(
                |word: Seq<u8>|
                    accepted(dfa).dom().contains(word) && word.len() > 0 && word[0] == byte,
            ),
        ),
{
    proof {
        assert forall|word: Seq<u8>, b: u8| #[trigger]
            precedes(word, seq![b]) <==> word.len() == 0 || word[0] < b by {
            lemma_precedes_byte(word, b);
        }
    }
    let ghost wanted = fst_words(set).filter(
        |word: Seq<u8>| accepted(dfa).dom().contains(word) && word.len() > 0 && word[0] == byte,
    );
    let lower = [byte];
    assert(lower@ =~= seq![byte]);
    if byte == u8::MAX {
        let words = search_from(set, dfa, &lower);
        assert(fst_words(set).filter(
            |word: Seq<u8>| accepted(dfa).dom().contains(word) && !precedes(word, lower@),
        ) =~= wanted);
        words
    } else {
        let upper = [byte + 1];
        assert(upper@ =~= seq![(byte + 1) as u8]);
        let words = search_between(set, dfa, &lower, &upper);
        assert(fst_words(set).filter(
            |word: Seq<u8>|
                accepted(dfa).dom().contains(word) && !precedes(word, lower@) && precedes(
                    word,
                    upper@,
                ),
        ) =~= wanted);
        words
    }
}

} // verus!
