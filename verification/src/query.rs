//! The words of a query and the automata under which they, and what may stand for them, are
//! looked up.

use std::ops::Range;

use vstd::prelude::*;
use vstd::string::{StrSliceExecFns, StringExecFns};

verus! {

/// Whether a character is white space: whether Unicode gives it the property White_Space.
pub open spec fn is_white_space(c: char) -> bool {
    ||| '\u{9}' <= c <= '\u{d}'
    ||| c == '\u{20}' || c == '\u{85}' || c == '\u{a0}' || c == '\u{1680}'
    ||| '\u{2000}' <= c <= '\u{200a}'
    ||| c == '\u{2028}' || c == '\u{2029}' || c == '\u{202f}' || c == '\u{205f}'
    ||| c == '\u{3000}'
}

/// Calls `char::is_whitespace` of std: whether a character has the Unicode property White_Space.
#[verifier::external_body]
fn char_is_whitespace(c: char) -> (result: bool)
    ensures
        result == is_white_space(c),
{
    c.is_whitespace()
}

/// A text in lower case.
pub uninterp spec fn lower_case(text: Seq<char>) -> Seq<char>;

/// Calls `str::to_lowercase` of std: the text in lower case.
#[verifier::external_body]
fn str_to_lowercase(text: &str) -> (lower: String)
    ensures
        lower@ == lower_case(text@),
{
    text.to_lowercase()
}

/// Whether a query ends with white space.
pub open spec fn ends_with_space(query: Seq<char>) -> bool {
    query.len() > 0 && is_white_space(query.last())
}

/// Whether a query ends with white space: its last word is then complete.
pub fn has_end_whitespace(query: &str) -> (result: bool)
    ensures
        result == ends_with_space(query@),
{
    let len = query.unicode_len();
    len > 0 && char_is_whitespace(query.get_char(len - 1))
}

/// The words of a query in lower case.
pub fn query_words(words: &Vec<&str>) -> (lower: Vec<String>)
    ensures
        lower@.len() == words@.len(),
        forall|i: int| 0 <= i < lower@.len() ==> (#[trigger] lower@[i])@ == lower_case(words@[i]@),
{
    let mut lower: Vec<String> = Vec::new();
    let mut i: usize = 0;
    while i < words.len()
        invariant
            i <= words@.len(),
            lower@.len() == i,
            forall|j: int|
                0 <= j < lower@.len() ==> (#[trigger] lower@[j])@ == lower_case(words@[j]@),
        decreases words@.len() - i,
    {
        lower.push(str_to_lowercase(words[i]));
        i = i + 1;
    }
    lower
}

/// Whether a function tells characters apart: it answers for every character, and the same each
/// time.
pub open spec fn classifies<F: Fn(char) -> bool>(f: F) -> bool {
    &&& forall|c: char| #[trigger] call_requires(f, (c,))
    &&& forall|c: char, a: bool, b: bool| #[trigger]
        call_ensures(f, (c,), a) && #[trigger] call_ensures(f, (c,), b) ==> a == b
}

/// Whether a function answers yes for every character of a text.
pub open spec fn all_chars<F: Fn(char) -> bool>(f: F, text: Seq<char>) -> bool {
    forall|i: int| 0 <= i < text.len() ==> call_ensures(f, (#[trigger] text[i],), true)
}

/// Whether a function answers yes for every character of a text.
pub(crate) fn are_all<F: Fn(char) -> bool>(f: &F, text: &str) -> (result: bool)
    requires
        classifies(*f),
    ensures
        result == all_chars(*f, text@),
{
    for c in iter: text.chars()
        invariant
            classifies(*f),
            iter.seq() == text@,
            forall|i: int| 0 <= i < iter.index() ==> call_ensures(*f, (#[trigger] text@[i],), true),
    {
        if !f(c) {
            return false;
        }
    }
    true
}

/// Texts put together, with a separator between them.
pub open spec fn joined(words: Seq<String>, separator: Seq<char>) -> Seq<char>
    decreases words.len(),
{
    if words.len() == 0 {
        seq![]
    } else if words.len() == 1 {
        words[0]@
    } else {
        joined(words.drop_last(), separator) + separator + words.last()@
    }
}

/// Puts the words of a range together, with a separator between them.
fn join(words: &Vec<String>, start: usize, end: usize, separator: &str) -> (text: String)
    requires
        start < end <= words@.len(),
    ensures
        text@ == joined(words@.subrange(start as int, end as int), separator@),
{
    let mut text = words[start].clone();
    let mut i: usize = start + 1;
    while i < end
        invariant
            start < i <= end <= words@.len(),
            text@ == joined(words@.subrange(start as int, i as int), separator@),
        decreases end - i,
    {
        text.append(separator);
        text.append(words[i].as_str());
        i = i + 1;
        assert(words@.subrange(start as int, i as int).drop_last() =~= words@.subrange(
            start as int,
            i - 1,
        ));
    }
    text
}

/// Consecutive words of a query.
#[derive(Debug)]
pub struct Ngram {
    /// The positions of the words in the query.
    pub range: Range<usize>,
    /// The words, with a space between them.
    pub text: String,
    /// The words, with nothing between them.
    pub concat: String,
    /// Whether the last word may be still incomplete.
    pub is_prefix: bool,
}

/// What an [`Ngram`] shows.
pub struct NgramModel {
    pub start: int,
    pub end: int,
    pub text: Seq<char>,
    pub concat: Seq<char>,
    pub is_prefix: bool,
}

impl View for Ngram {
    type V = NgramModel;

    open spec fn view(&self) -> NgramModel {
        NgramModel {
            start: self.range.start as int,
            end: self.range.end as int,
            text: self.text@,
            concat: self.concat@,
            is_prefix: self.is_prefix,
        }
    }
}

/// What each of several n-grams shows.
pub open spec fn ngram_models(ngrams: Seq<Ngram>) -> Seq<NgramModel> {
    ngrams.map_values(|ngram: Ngram| ngram@)
}

/// A text may be still incomplete when nothing follows it in the query, neither a word nor white
/// space, and a letter of it is not Chinese, Japanese or Korean.
pub open spec fn is_incomplete<F: Fn(char) -> bool>(
    is_cjk: F,
    text: Seq<char>,
    has_following_word: bool,
    end_whitespace: bool,
) -> bool {
    !has_following_word && !end_whitespace && !all_chars(is_cjk, text)
}

/// The `n` words of a query from position `start` on.
pub open spec fn ngram_at<F: Fn(char) -> bool>(
    words: Seq<String>,
    end_whitespace: bool,
    is_cjk: F,
    n: int,
    start: int,
) -> NgramModel {
    let part = words.subrange(start, start + n);
    NgramModel {
        start,
        end: start + n,
        text: joined(part, seq![' ']),
        concat: joined(part, seq![]),
        is_prefix: is_incomplete(
            is_cjk,
            joined(part, seq![' ']),
            start + n < words.len(),
            end_whitespace,
        ),
    }
}

/// All groups of `n` consecutive words of a query, from the first word on.
pub open spec fn ngrams_of_length<F: Fn(char) -> bool>(
    words: Seq<String>,
    end_whitespace: bool,
    is_cjk: F,
    n: int,
) -> Seq<NgramModel> {
    Seq::new(
        if n <= words.len() {
            (words.len() - n + 1) as nat
        } else {
            0
        },
        |start: int| ngram_at(words, end_whitespace, is_cjk, n, start),
    )
}

/// All groups of up to `max` consecutive words of a query, the single words first.
pub open spec fn ngrams_up_to<F: Fn(char) -> bool>(
    words: Seq<String>,
    end_whitespace: bool,
    is_cjk: F,
    max: int,
) -> Seq<NgramModel> {
    Seq::new(
        max as nat,
        |m: int| ngrams_of_length(words, end_whitespace, is_cjk, m + 1),
    ).flatten()
}

/// Adds all groups of `n` consecutive words of a query.
fn push_ngrams<F: Fn(char) -> bool>(
    found: &mut Vec<Ngram>,
    words: &Vec<String>,
    end_whitespace: bool,
    is_cjk: &F,
    n: usize,
)
    requires
        classifies(*is_cjk),
        n > 0,
    ensures
        ngram_models(final(found)@) == ngram_models(old(found)@) + ngrams_of_length(
            words@,
            end_whitespace,
            *is_cjk,
            n as int,
        ),
{
    let ghost before = ngram_models(found@);
    let ghost all = ngrams_of_length(words@, end_whitespace, *is_cjk, n as int);
    proof {
        reveal_strlit(" ");
        reveal_strlit("");
        assert(" "@ =~= seq![' ']);
        assert(""@ =~= Seq::<char>::empty());
        assert(ngram_models(found@) =~= before + all.take(0));
    }
    let mut start: usize = 0;
    while n <= words.len() && start <= words.len() - n
        invariant
            n > 0,
            classifies(*is_cjk),
            all == ngrams_of_length(words@, end_whitespace, *is_cjk, n as int),
            start <= all.len(),
            " "@ == seq![' '],
            ""@ == Seq::<char>::empty(),
            ngram_models(found@) == before + all.take(start as int),
        decreases all.len() - start,
    {
        let end = start + n;
        let text = join(words, start, end, " ");
        let concat = join(words, start, end, "");
        let is_prefix = end == words.len() && !end_whitespace && !are_all(is_cjk, text.as_str());
        let ngram = Ngram { range: start..end, text, concat, is_prefix };
        let ghost shown = ngram_models(found@);
        proof {
            assert(all[start as int] == ngram@);
        }
        found.push(ngram);
        proof {
            assert(ngram_models(found@) =~= shown.push(ngram@));
            assert(ngram_models(found@) =~= before + all.take(start + 1));
        }
        start = start + 1;
    }
    assert(all.take(start as int) =~= all);
}

/// All groups of up to `max` consecutive words of a query: the single words first, then the pairs,
/// and so on.
pub fn ngrams<F: Fn(char) -> bool>(
    words: &Vec<String>,
    end_whitespace: bool,
    is_cjk: &F,
    max: usize,
) -> (ngrams: Vec<Ngram>)
    requires
        classifies(*is_cjk),
    ensures
        ngram_models(ngrams@) == ngrams_up_to(words@, end_whitespace, *is_cjk, max as int),
{
    let ghost lengths = Seq::new(
        max as nat,
        |m: int| ngrams_of_length(words@, end_whitespace, *is_cjk, m + 1),
    );
    let mut found: Vec<Ngram> = Vec::new();
    assert(ngram_models(found@) =~= lengths.take(0).flatten());
    let mut m: usize = 0;
    while m < max
        invariant
            m <= max == lengths.len(),
            classifies(*is_cjk),
            forall|k: int|
                0 <= k < max ==> #[trigger] lengths[k] == ngrams_of_length(
                    words@,
                    end_whitespace,
                    *is_cjk,
                    k + 1,
                ),
            ngram_models(found@) == lengths.take(m as int).flatten(),
        decreases max - m,
    {
        push_ngrams(&mut found, words, end_whitespace, is_cjk, m + 1);
        proof {
            assert(lengths.take(m + 1) =~= lengths.take(m as int).push(lengths[m as int]));
            lengths.take(m as int).lemma_flatten_push(lengths[m as int]);
        }
        m = m + 1;
    }
    assert(lengths.take(m as int) =~= lengths);
    found
}

/// The last character of a query says whether it ends with white space, whatever stands before it,
/// and an empty query does not.
pub proof fn the_last_character_ends_a_query(query: Seq<char>, c: char)
    ensures
        ends_with_space(query.push(c)) == is_white_space(c),
        !ends_with_space(Seq::empty()),
{
    assert(query.push(c).last() == c);
}

/// One word alone is left as it is, and one more word comes behind the others and a separator.
pub proof fn one_more_word_is_joined(words: Seq<String>, word: String, separator: Seq<char>)
    ensures
        joined(seq![word], separator) == word@,
        words.len() > 0 ==> joined(words.push(word), separator) == joined(words, separator)
            + separator + word@,
{
    assert(words.push(word).drop_last() =~= words);
}

/// As n-grams may have one more word, each group of that many consecutive words comes behind the
/// shorter ones, from the first word on: with its place, its words joined by a space and by
/// nothing, and as a prefix just if it ends the query, no white space follows and one of its
/// characters is not Chinese, Japanese or Korean.
pub proof fn longer_ngrams_follow_shorter_ones<F: Fn(char) -> bool>(
    words: Seq<String>,
    end_whitespace: bool,
    is_cjk: F,
    max: int,
    before: Seq<Ngram>,
    after: Seq<Ngram>,
)
    requires
        0 <= max,
        ngram_models(before) == ngrams_up_to(words, end_whitespace, is_cjk, max),
        ngram_models(after) == ngrams_up_to(words, end_whitespace, is_cjk, max + 1),
    ensures
        max == 0 ==> before.len() == 0,
        after.len() == before.len() + if max < words.len() {
            words.len() - max
        } else {
            0
        },
        forall|i: int| 0 <= i < before.len() ==> (#[trigger] after[i])@ == before[i]@,
        forall|i: int|
            before.len() <= i < after.len() ==> {
                let start = i - before.len();
                let part = words.subrange(start, start + max + 1);
                &&& (#[trigger] after[i]).range.start == start
                &&& after[i].range.end == start + max + 1
                &&& after[i].text@ == joined(part, seq![' '])
                &&& after[i].concat@ == joined(part, seq![])
                &&& after[i].is_prefix <==> start + max + 1 == words.len() && !end_whitespace
                    && exists|k: int|
                    0 <= k < after[i].text@.len() && !call_ensures(
                        is_cjk,
                        (#[trigger] after[i].text@[k],),
                        true,
                    )
            },
{
    let short = Seq::new(
        max as nat,
        |m: int| ngrams_of_length(words, end_whitespace, is_cjk, m + 1),
    );
    let long = Seq::new(
        (max + 1) as nat,
        |m: int| ngrams_of_length(words, end_whitespace, is_cjk, m + 1),
    );
    let added = ngrams_of_length(words, end_whitespace, is_cjk, max + 1);
    assert(long =~= short.push(added));
    short.lemma_flatten_push(added);
    assert(ngram_models(before).len() == before.len());
    assert(ngram_models(after).len() == after.len());
    if max == 0 {
        assert(short.flatten() =~= Seq::empty());
    }
    assert forall|i: int| 0 <= i < before.len() implies (#[trigger] after[i])@
        == before[i]@ by {
        assert(ngram_models(after)[i] == ngram_models(before)[i]);
    }
    assert forall|i: int| before.len() <= i < after.len() implies {
        let start = i - before.len();
        let part = words.subrange(start, start + max + 1);
        &&& (#[trigger] after[i]).range.start == start
        &&& after[i].range.end == start + max + 1
        &&& after[i].text@ == joined(part, seq![' '])
        &&& after[i].concat@ == joined(part, seq![])
        &&& after[i].is_prefix <==> start + max + 1 == words.len() && !end_whitespace && exists|
            k: int,
        |
            0 <= k < after[i].text@.len() && !call_ensures(
                is_cjk,
                (#[trigger] after[i].text@[k],),
                true,
            )
    } by {
        let start = i - before.len();
        assert(ngram_models(after)[i] == added[start]);
        assert(added[start] == ngram_at(words, end_whitespace, is_cjk, max + 1, start));
    }
}

} // verus!
