//! The postings lists that the words of a query fetch, and the matches that they make.

use std::borrow::Cow;
use std::collections::HashSet;
use std::rc::Rc;

use fst::Set as FstSet;
use sdset::Set as SdSet;
use vstd::prelude::*;
use vstd::utf8::{decode_utf8, encode_utf8, encode_utf8_first_scalar, valid_utf8};

use crate::automaton::QueryWordAutomaton;
use crate::candidates::{
    kept_positions_are_matched, list_matches, matches_hold_the_kept_positions,
    matches_lie_in_kept_documents, push_kept_groups, sorted_lists_match_each_document_once,
};
use crate::documents::{match_models, BareMatch, DocIndex, DocumentId, MatchModel};
use crate::grouping::{
    contents, index_document, lemma_flatten_origin, lemma_flatten_piece, lemma_runs,
    linear_document_groups, runs,
};
use crate::postings::{cow_items, set_as_slice, PostingsListView};
use crate::typos::{
    accepted, counts_as, dfa_distance, levenshtein, near, near_prefix, TypoTolerance,
};
use crate::words::{
    first_difference, fst_words, listing, precedes, search_with_first_byte, texts,
};

verus! {

/// Where a postings list is kept.
#[derive(Debug, Clone, Copy, PartialEq, Eq, Structural)]
pub enum PostingsSource {
    /// With those of all words that start with some letter.
    PrefixCache,
    /// With those of single words.
    Words,
}

/// A postings list that a word of the query asks for.
#[derive(Debug)]
pub struct Lookup {
    pub source: PostingsSource,
    /// The key under which the list is kept.
    pub input: Vec<u8>,
    /// The number of typos between the two words.
    pub distance: u8,
    pub is_exact: bool,
}

/// The keys of several lookups.
pub open spec fn inputs(lookups: Seq<Lookup>) -> Seq<Vec<u8>> {
    lookups.map_values(|lookup: Lookup| lookup.input)
}

/// Whether a word is a prefix of one byte, the postings of which are kept together.
pub open spec fn is_cached_prefix(automaton: QueryWordAutomaton) -> bool {
    automaton.is_prefix && encode_utf8(automaton.query@).len() == 1
}

/// The words that a word of the query is looked up as: the words of the set that its automaton
/// accepts and that start with its first byte.
pub open spec fn looked_up(
    automaton: QueryWordAutomaton,
    words: Set<Seq<u8>>,
    tolerance: TypoTolerance,
) -> Set<Seq<u8>> {
    words.filter(
        |word: Seq<u8>|
            automaton.texts(tolerance).dom().contains(word) && word.len() > 0 && word[0]
                == encode_utf8(automaton.query@)[0],
    )
}

/// A text that is not empty takes at least one byte.
proof fn lemma_encoding_is_not_empty(text: Seq<char>)
    requires
        text.len() > 0,
    ensures
        encode_utf8(text).len() > 0,
{
    encode_utf8_first_scalar(text);
}

/// The postings lists that a word of the query asks for. A prefix of one byte asks for the list
/// that is kept for its letter. Other words ask for the list of each word that they are looked up
/// as, in the order of a dictionary, with the number of typos; such a lookup is exact if the word
/// is an exact one and stands there without typos and without anything behind it. A word of a
/// phrase is looked up as itself alone.
pub fn lookups(
    automaton: &QueryWordAutomaton,
    words: &FstSet,
    tolerance: &TypoTolerance,
) -> (lookups: Vec<Lookup>)
    requires
        automaton.query@.len() > 0,
    ensures
        is_cached_prefix(*automaton) ==> {
            &&& lookups@.len() == 1
            &&& lookups@[0].source == PostingsSource::PrefixCache
            &&& lookups@[0].input@ == seq![encode_utf8(automaton.query@)[0], 0, 0, 0]
            &&& lookups@[0].distance == 0
            &&& lookups@[0].is_exact == automaton.is_exact
        },
        !is_cached_prefix(*automaton) ==> {
            &&& listing(inputs(lookups@), looked_up(*automaton, fst_words(words), *tolerance))
            &&& forall|text: Seq<u8>|
                valid_utf8(text) ==> ((#[trigger] automaton.texts(*tolerance).dom().contains(text)
                    && automaton.texts(*tolerance)[text] == 0) <==> automaton.spelled(text))
            &&& automaton.measured(*tolerance)
            &&& forall|i: int|
                0 <= i < lookups@.len() ==> {
                    &&& (#[trigger] lookups@[i]).source == PostingsSource::Words
                    &&& lookups@[i].distance == automaton.texts(*tolerance)[lookups@[i].input@]
                    &&& lookups@[i].distance <= automaton.typos(*tolerance)
                    &&& lookups@[i].is_exact == (automaton.is_exact && lookups@[i].distance == 0
                        && lookups@[i].input@.len() == encode_utf8(automaton.query@).len())
                }
            &&& forall|i: int|
                0 <= i < lookups@.len() && valid_utf8(#[trigger] lookups@[i].input@) ==> (
                lookups@[i].is_exact <==> automaton.is_exact && lookups@[i].input@ == encode_utf8(
                    automaton.query@,
                )) && (automaton.phrase_query is Some ==> lookups@[i].input@ == encode_utf8(
                    automaton.query@,
                ))
        },
        automaton.is_prefix && encode_utf8(automaton.query@).len() == 1 ==> {
            &&& lookups@.len() == 1
            &&& lookups@[0].source == PostingsSource::PrefixCache
            &&& lookups@[0].input@ == seq![encode_utf8(automaton.query@)[0], 0, 0, 0]
            &&& lookups@[0].distance == 0
            &&& lookups@[0].is_exact == automaton.is_exact
        },
        !automaton.is_prefix || encode_utf8(automaton.query@).len() != 1 ==> {
            let texts = if automaton.phrase_query is Some {
                near(0, tolerance.transposition(), automaton.query@)
            } else if automaton.is_prefix {
                near_prefix(tolerance.max(), tolerance.transposition(), automaton.query@)
            } else {
                near(tolerance.max(), tolerance.transposition(), automaton.query@)
            };
            &&& forall|word: Seq<u8>| #[trigger]
                fst_words(words).contains(word) && texts.dom().contains(word) && word.len() > 0
                    && word[0] == encode_utf8(automaton.query@)[0] ==> exists|i: int|
                    0 <= i < lookups@.len() && (#[trigger] lookups@[i]).input@ == word
            &&& forall|i: int|
                0 <= i < lookups@.len() ==> {
                    &&& (#[trigger] lookups@[i]).source == PostingsSource::Words
                    &&& fst_words(words).contains(lookups@[i].input@)
                    &&& lookups@[i].input@.len() > 0
                    &&& lookups@[i].input@[0] == encode_utf8(automaton.query@)[0]
                    &&& texts.dom().contains(lookups@[i].input@)
                    &&& lookups@[i].distance == texts[lookups@[i].input@]
                    &&& lookups@[i].is_exact == (automaton.is_exact && lookups@[i].distance == 0
                        && lookups@[i].input@.len() == encode_utf8(automaton.query@).len())
                }
            &&& forall|i: int, j: int|
                0 <= i < j < lookups@.len() ==> precedes(
                    #[trigger] lookups@[i].input@,
                    #[trigger] lookups@[j].input@,
                )
            &&& automaton.phrase_query is Some || !automaton.is_prefix ==> forall|word: Seq<u8>|
             #[trigger]
                fst_words(words).contains(word) && valid_utf8(word) && word.len() > 0 && word[0]
                    == encode_utf8(automaton.query@)[0] && levenshtein(
                    automaton.query@,
                    decode_utf8(word),
                ) <= (if automaton.phrase_query is Some {
                    0
                } else {
                    tolerance.max() as nat
                }) ==> exists|i: int|
                    0 <= i < lookups@.len() && (#[trigger] lookups@[i]).input@ == word
            &&& automaton.phrase_query is Some || !automaton.is_prefix ==> forall|i: int|
                0 <= i < lookups@.len() && valid_utf8(#[trigger] lookups@[i].input@) ==> counts_as(
                    levenshtein(automaton.query@, decode_utf8(lookups@[i].input@)),
                    lookups@[i].distance,
                    tolerance.transposition(),
                )
            &&& automaton.phrase_query is None && automaton.is_prefix ==> forall|word: Seq<u8>|
             #[trigger]
                fst_words(words).contains(word) && valid_utf8(word) && encode_utf8(
                    automaton.query@,
                ).is_prefix_of(word) ==> exists|i: int|
                    0 <= i < lookups@.len() && (#[trigger] lookups@[i]).input@ == word
                        && lookups@[i].distance == 0
        },
{
    proof {
        lemma_encoding_is_not_empty(automaton.query@);
    }
    let bytes = automaton.query.as_str().as_bytes();
    let byte = bytes[0];
    let mut lookups: Vec<Lookup> = Vec::new();
    if automaton.is_prefix && bytes.len() == 1 {
        let lookup = Lookup {
            source: PostingsSource::PrefixCache,
            input: vec![byte, 0, 0, 0],
            distance: 0,
            is_exact: automaton.is_exact,
        };
        assert(lookup.input@ =~= seq![encode_utf8(automaton.query@)[0], 0, 0, 0]);
        lookups.push(lookup);
        return lookups;
    }
    let dfa = automaton.dfa(tolerance);
    let found = search_with_first_byte(words, &dfa, byte);
    let ghost all = found@;
    let ghost wanted = looked_up(*automaton, fst_words(words), *tolerance);
    assert(wanted =~= fst_words(words).filter(
        |word: Seq<u8>| accepted(&dfa).dom().contains(word) && word.len() > 0 && word[0] == byte,
    ));
    for input in iter: found
        invariant
            iter.seq() == all,
            lookups@.len() == iter.index(),
            bytes@ == encode_utf8(automaton.query@),
            listing(all, wanted),
            wanted == looked_up(*automaton, fst_words(words), *tolerance),
            accepted(&dfa) == automaton.texts(*tolerance),
            forall|text: Seq<u8>| #[trigger]
                accepted(&dfa).dom().contains(text) ==> accepted(&dfa)[text] <= automaton.typos(
                    *tolerance,
                ),
            forall|text: Seq<u8>|
                valid_utf8(text) ==> ((#[trigger] accepted(&dfa).dom().contains(text)
                    && accepted(&dfa)[text] == 0) <==> automaton.spelled(text)),
            forall|i: int|
                0 <= i < lookups@.len() ==> {
                    &&& (#[trigger] lookups@[i]).input == all[i]
                    &&& lookups@[i].source == PostingsSource::Words
                    &&& lookups@[i].distance == automaton.texts(*tolerance)[lookups@[i].input@]
                    &&& lookups@[i].distance <= automaton.typos(*tolerance)
                    &&& lookups@[i].is_exact == (automaton.is_exact && lookups@[i].distance == 0
                        && lookups@[i].input@.len() == encode_utf8(automaton.query@).len())
                    &&& valid_utf8(lookups@[i].input@) ==> (lookups@[i].is_exact
                        <==> automaton.is_exact && lookups@[i].input@ == encode_utf8(
                        automaton.query@,
                    )) && (automaton.phrase_query is Some ==> lookups@[i].input@ == encode_utf8(
                        automaton.query@,
                    ))
                },
    {
        proof {
            let i = lookups@.len() as int;
            assert(texts(all)[i] == input@);
            assert(texts(all).to_set().contains(input@));
            assert(wanted.contains(input@));
            if encode_utf8(automaton.query@).is_prefix_of(input@) && input@.len() == encode_utf8(
                automaton.query@,
            ).len() {
                assert(input@ =~= encode_utf8(automaton.query@));
            }
        }
        let distance = dfa_distance(&dfa, input.as_slice());
        let is_exact = automaton.is_exact && distance == 0 && input.len() == bytes.len();
        lookups.push(Lookup { source: PostingsSource::Words, input, distance, is_exact });
    }
    proof {
        assert(inputs(lookups@) =~= all);
        assert forall|word: Seq<u8>| #[trigger]
            fst_words(words).contains(word) && automaton.texts(*tolerance).dom().contains(word)
                && word.len() > 0 && word[0] == encode_utf8(automaton.query@)[0] implies exists|
            i: int,
        |
            0 <= i < lookups@.len() && (#[trigger] lookups@[i]).input@ == word by {
            let i = every_near_word_is_looked_up(
                *automaton,
                fst_words(words),
                *tolerance,
                lookups@,
                word,
            );
            assert(lookups@[i].input@ == word);
        }
        assert forall|i: int| 0 <= i < lookups@.len() implies wanted.contains(
            (#[trigger] lookups@[i]).input@,
        ) by {
            assert(texts(all)[i] == lookups@[i].input@);
            assert(texts(all).to_set().contains(lookups@[i].input@));
        }
        assert forall|i: int, j: int| 0 <= i < j < lookups@.len() implies precedes(
            #[trigger] lookups@[i].input@,
            #[trigger] lookups@[j].input@,
        ) by {
            assert(precedes(all[i]@, all[j]@));
        }
        assert forall|word: Seq<u8>|
            valid_utf8(word) && levenshtein(automaton.query@, decode_utf8(word))
                <= automaton.typos(*tolerance) && (automaton.phrase_query is Some
                || !automaton.is_prefix) implies #[trigger] automaton.texts(
            *tolerance,
        ).dom().contains(word) by {}
        assert forall|word: Seq<u8>| #[trigger]
            fst_words(words).contains(word) && valid_utf8(word) && encode_utf8(
                automaton.query@,
            ).is_prefix_of(word) && automaton.phrase_query is None
                && automaton.is_prefix implies exists|i: int|
            0 <= i < lookups@.len() && (#[trigger] lookups@[i]).input@ == word
                && lookups@[i].distance == 0 by {
            assert(automaton.spelled(word));
            assert(automaton.texts(*tolerance).dom().contains(word));
            let i = every_near_word_is_looked_up(
                *automaton,
                fst_words(words),
                *tolerance,
                lookups@,
                word,
            );
            assert(lookups@[i].input@ == word);
        }
    }
    lookups
}

/// Each word of the set that starts with the first byte of a word of the query and that is near to
/// it is looked up, whatever else holds of it: for a word of a phrase without typos, for others
/// with the tolerated typos, and for a prefix as the start of a text.
pub proof fn every_near_word_is_looked_up(
    automaton: QueryWordAutomaton,
    words: Set<Seq<u8>>,
    tolerance: TypoTolerance,
    lookups: Seq<Lookup>,
    word: Seq<u8>,
) -> (i: int)
    requires
        listing(inputs(lookups), looked_up(automaton, words, tolerance)),
        words.contains(word),
        word.len() > 0,
        word[0] == encode_utf8(automaton.query@)[0],
        automaton.phrase_query is Some ==> near(
            0,
            tolerance.transposition(),
            automaton.query@,
        ).dom().contains(word),
        automaton.phrase_query is None && automaton.is_prefix ==> near_prefix(
            tolerance.max(),
            tolerance.transposition(),
            automaton.query@,
        ).dom().contains(word),
        automaton.phrase_query is None && !automaton.is_prefix ==> near(
            tolerance.max(),
            tolerance.transposition(),
            automaton.query@,
        ).dom().contains(word),
    ensures
        0 <= i < lookups.len(),
        lookups[i].input@ == word,
{
    let found = texts(inputs(lookups));
    assert(looked_up(automaton, words, tolerance).contains(word));
    assert(found.to_set().contains(word));
    let i = choose|i: int| 0 <= i < found.len() && found[i] == word;
    assert(inputs(lookups)[i] == lookups[i].input);
    i
}

/// Only words of the set that start with the first byte of a word of the query and that are near to
/// it are looked up, each once.
pub proof fn only_near_words_are_looked_up(
    automaton: QueryWordAutomaton,
    words: Set<Seq<u8>>,
    tolerance: TypoTolerance,
    lookups: Seq<Lookup>,
    i: int,
)
    requires
        listing(inputs(lookups), looked_up(automaton, words, tolerance)),
        0 <= i < lookups.len(),
    ensures
        words.contains(lookups[i].input@),
        lookups[i].input@.len() > 0,
        lookups[i].input@[0] == encode_utf8(automaton.query@)[0],
        automaton.phrase_query is Some ==> near(
            0,
            tolerance.transposition(),
            automaton.query@,
        ).dom().contains(lookups[i].input@),
        automaton.phrase_query is None && automaton.is_prefix ==> near_prefix(
            tolerance.max(),
            tolerance.transposition(),
            automaton.query@,
        ).dom().contains(lookups[i].input@),
        automaton.phrase_query is None && !automaton.is_prefix ==> near(
            tolerance.max(),
            tolerance.transposition(),
            automaton.query@,
        ).dom().contains(lookups[i].input@),
        forall|j: int|
            0 <= j < i ==> (#[trigger] lookups[j]).input@ != lookups[i].input@,
{
    let found = texts(inputs(lookups));
    assert(found[i] == lookups[i].input@);
    assert(found.to_set().contains(lookups[i].input@));
    assert forall|j: int| 0 <= j < i implies (#[trigger] lookups[j]).input@
        != lookups[i].input@ by {
        assert(precedes(inputs(lookups)[j]@, inputs(lookups)[i]@));
        let (a, b) = (lookups[j].input@, lookups[i].input@);
        let k = choose|k: int| #[trigger] first_difference(a, b, k);
        assert(k == a.len() || a[k] < b[k]);
    }
}

/// A postings list that a word of the query fetched.
pub struct FetchedPostings<'txn> {
    /// The key under which the list is kept.
    pub input: Rc<[u8]>,
    /// The number of typos between the two words.
    pub distance: u8,
    pub is_exact: bool,
    /// Where the word that was found stands.
    pub matches: Rc<Cow<'txn, SdSet<DocIndex>>>,
}

/// The documents of some positions.
pub open spec fn documents_of(indexes: Seq<DocIndex>) -> Set<DocumentId> {
    indexes.map_values(index_document()).to_set()
}

/// The documents in which a word of the query was found.
pub open spec fn word_documents(fetched: Seq<FetchedPostings<'_>>) -> Set<DocumentId> {
    Set::new(
        |document: DocumentId|
            exists|f: int|
                0 <= f < fetched.len() && documents_of(
                    cow_items(&*(#[trigger] fetched[f]).matches),
                ).contains(document),
    )
}

/// The documents that the word of the query at `query_index` may match: all for the first word,
/// and for the others those in which the first word was found.
pub open spec fn open_documents(
    words: Seq<Vec<FetchedPostings<'_>>>,
    query_index: int,
) -> spec_fn(DocumentId) -> bool {
    |document: DocumentId| query_index == 0 || word_documents(words[0]@).contains(document)
}

/// The matches that a postings list makes in the documents that are kept.
pub open spec fn fetched_matches(
    fetched: FetchedPostings<'_>,
    query_index: usize,
    kept: spec_fn(DocumentId) -> bool,
) -> Seq<MatchModel> {
    list_matches(
        fetched.input@,
        query_index,
        fetched.distance,
        fetched.is_exact,
        cow_items(&*fetched.matches),
        kept,
    )
}

/// The matches that the postings lists of a word of the query make in the documents that are kept,
/// list after list.
pub open spec fn word_matches(
    fetched: Seq<FetchedPostings<'_>>,
    query_index: usize,
    kept: spec_fn(DocumentId) -> bool,
) -> Seq<MatchModel> {
    fetched.flat_map(|postings: FetchedPostings<'_>| fetched_matches(postings, query_index, kept))
}

/// The matches of each word of the query.
pub open spec fn matches_by_word(words: Seq<Vec<FetchedPostings<'_>>>) -> Seq<Seq<MatchModel>> {
    Seq::new(
        words.len(),
        |q: int| word_matches(words[q]@, q as usize, open_documents(words, q)),
    )
}

/// The documents of groups of positions.
spec fn group_documents(groups: Seq<Seq<DocIndex>>) -> Set<DocumentId> {
    groups.map_values(|group: Seq<DocIndex>| group[0].document_id).to_set()
}

/// The items of a sequence with one more are its items and that one.
proof fn lemma_push_to_set<A>(items: Seq<A>, item: A)
    ensures
        items.push(item).to_set() == items.to_set().insert(item),
{
    let longer = items.push(item);
    assert forall|a: A| longer.contains(a) <==> items.contains(a) || a == item by {
        if items.contains(a) {
            let i = choose|i: int| 0 <= i < items.len() && items[i] == a;
            assert(longer[i] == a);
        }
        assert(longer[items.len() as int] == item);
    }
    assert(longer.to_set() =~= items.to_set().insert(item));
}

/// One more group adds its document.
proof fn lemma_group_documents_step(groups: Seq<Seq<DocIndex>>, g: int)
    requires
        0 <= g < groups.len(),
    ensures
        group_documents(groups.take(g + 1)) == group_documents(groups.take(g)).insert(
            groups[g][0].document_id,
        ),
{
    let document = |group: Seq<DocIndex>| group[0].document_id;
    let before = groups.take(g).map_values(document);
    let after = groups.take(g + 1).map_values(document);
    assert(after =~= before.push(document(groups[g])));
    lemma_push_to_set(before, document(groups[g]));
}

/// The documents of the groups of positions are the documents of the positions.
proof fn lemma_group_documents(indexes: Seq<DocIndex>)
    ensures
        group_documents(runs(indexes, index_document())) == documents_of(indexes),
    decreases indexes.len(),
{
    let groups = runs(indexes, index_document());
    if indexes.len() == 0 {
        assert(group_documents(groups) =~= documents_of(indexes));
    } else {
        let rest = indexes.drop_last();
        let item = indexes.last();
        let before = runs(rest, index_document());
        lemma_group_documents(rest);
        lemma_runs(rest, index_document());
        assert(indexes =~= rest.push(item));
        let documents = indexes.map_values(index_document());
        assert(documents =~= rest.map_values(index_document()).push(item.document_id));
        lemma_push_to_set(rest.map_values(index_document()), item.document_id);
        if before.len() > 0 && before.last().last().document_id == item.document_id {
            let last = before.last();
            assert(before[before.len() - 1][last.len() - 1] == last.last());
            let document = |group: Seq<DocIndex>| group[0].document_id;
            assert(groups.map_values(document) =~= before.map_values(document));
            assert(before.map_values(document)[before.len() - 1] == item.document_id);
            assert(group_documents(before).contains(item.document_id));
            assert(documents_of(indexes) =~= documents_of(rest));
        } else {
            lemma_group_documents_step(groups, before.len() as int);
            assert(groups.take(before.len() as int) =~= before);
            assert(groups.take(before.len() as int + 1) =~= groups);
        }
    }
}

/// Adds the matches of one postings list in the documents that are kept, and notes their documents.
fn fetch_list<'txn>(
    found: &mut Vec<BareMatch<PostingsListView<'txn>>>,
    documents_ids: &mut HashSet<DocumentId>,
    query_index: usize,
    fetched: &FetchedPostings<'txn>,
)
    ensures
        match_models(final(found)@) == match_models(old(found)@) + fetched_matches(
            *fetched,
            query_index,
            |document: DocumentId| query_index == 0 || old(documents_ids)@.contains(document),
        ),
        final(documents_ids)@ == if query_index == 0 {
            old(documents_ids)@.union(documents_of(cow_items(&*fetched.matches)))
        } else {
            old(documents_ids)@
        },
{
    broadcast use vstd::std_specs::hash::group_hash_axioms;

    let ghost known = documents_ids@;
    let ghost kept = |document: DocumentId| query_index == 0 || known.contains(document);
    let view = PostingsListView::original(fetched.input.clone(), fetched.matches.clone());
    let groups = linear_document_groups(set_as_slice(&*view));
    let ghost pieces = contents(groups@);
    let mut flags: Vec<bool> = Vec::new();
    proof {
        lemma_runs(cow_items(&*fetched.matches), index_document());
        lemma_group_documents(cow_items(&*fetched.matches));
        assert(documents_ids@ =~= known.union(group_documents(pieces.take(0))));
    }
    while flags.len() < groups.len()
        invariant
            kept == (|document: DocumentId| query_index == 0 || known.contains(document)),
            pieces == contents(groups@),
            forall|g: int| 0 <= g < pieces.len() ==> (#[trigger] pieces[g]).len() > 0,
            flags@.len() <= groups@.len(),
            forall|g: int|
                0 <= g < flags@.len() ==> #[trigger] flags@[g] == kept(pieces[g][0].document_id),
            documents_ids@ == if query_index == 0 {
                known.union(group_documents(pieces.take(flags@.len() as int)))
            } else {
                known
            },
        decreases groups@.len() - flags@.len(),
    {
        let ghost g = flags@.len() as int;
        let group = groups[flags.len()];
        assert(pieces[g] == group@);
        let document_id = group[0].document_id;
        let ghost ids = documents_ids@;
        let keep = query_index == 0 || documents_ids.contains(&document_id);
        if keep {
            documents_ids.insert(document_id);
            assert(documents_ids@ =~= ids.insert(document_id));
        }
        flags.push(keep);
        proof {
            lemma_group_documents_step(pieces, g);
            if query_index == 0 {
                assert(documents_ids@ =~= known.union(group_documents(pieces.take(g + 1))));
            } else {
                assert(documents_ids@ =~= known);
            }
        }
    }
    assert(pieces.take(flags@.len() as int) =~= pieces);
    push_kept_groups(
        found,
        &view,
        &groups,
        &flags,
        query_index,
        fetched.distance,
        fetched.is_exact,
        Ghost(kept),
    );
}

/// One more postings list adds its documents.
proof fn lemma_word_documents_step(fetched: Seq<FetchedPostings<'_>>, f: int)
    requires
        0 <= f < fetched.len(),
    ensures
        word_documents(fetched.take(f + 1)) == word_documents(fetched.take(f)).union(
            documents_of(cow_items(&*fetched[f].matches)),
        ),
{
    let before = fetched.take(f);
    let after = fetched.take(f + 1);
    let added = documents_of(cow_items(&*fetched[f].matches));
    assert forall|d: DocumentId| #[trigger] word_documents(after).contains(d) <==> word_documents(
        before,
    ).contains(d) || added.contains(d) by {
        if word_documents(before).contains(d) {
            let i = choose|i: int|
                0 <= i < before.len() && documents_of(
                    cow_items(&*(#[trigger] before[i]).matches),
                ).contains(d);
            assert(after[i] == before[i]);
        }
        if added.contains(d) {
            assert(after[f] == fetched[f]);
        }
        if word_documents(after).contains(d) {
            let i = choose|i: int|
                0 <= i < after.len() && documents_of(
                    cow_items(&*(#[trigger] after[i]).matches),
                ).contains(d);
            if i < f {
                assert(before[i] == after[i]);
            }
        }
    }
    assert(word_documents(after) =~= word_documents(before).union(added));
}

/// Collects the matches that the postings lists of the words of a query make, word after word and
/// list after list: one for each group of consecutive positions in a document. The words behind the
/// first one match only in documents in which the first one was found.
pub fn fetch_matches<'txn>(words: &Vec<Vec<FetchedPostings<'txn>>>) -> (found: Vec<
    BareMatch<PostingsListView<'txn>>,
>)
    ensures
        match_models(found@) == matches_by_word(words@).flatten(),
{
    broadcast use vstd::std_specs::hash::group_hash_axioms;

    let mut found: Vec<BareMatch<PostingsListView<'txn>>> = Vec::new();
    let mut documents_ids: HashSet<DocumentId> = HashSet::new();
    let ghost by_word = matches_by_word(words@);
    let mut q: usize = 0;
    assert(match_models(found@) =~= by_word.take(0).flatten());
    while q < words.len()
        invariant
            q <= words@.len(),
            by_word == matches_by_word(words@),
            match_models(found@) == by_word.take(q as int).flatten(),
            documents_ids@ == if q == 0 {
                Set::<DocumentId>::empty()
            } else {
                word_documents(words@[0]@)
            },
        decreases words@.len() - q,
    {
        let fetched = &words[q];
        let ghost before = match_models(found@);
        let ghost known = documents_ids@;
        let ghost kept = open_documents(words@, q as int);
        let ghost show = |postings: FetchedPostings<'_>| fetched_matches(postings, q, kept);
        let mut f: usize = 0;
        proof {
            assert(match_models(found@) =~= before + fetched@.take(0).flat_map(show));
            assert(word_documents(fetched@.take(0)) =~= Set::empty());
        }
        while f < fetched.len()
            invariant
                f <= fetched@.len(),
                q < words@.len(),
                fetched@ == words@[q as int]@,
                kept == open_documents(words@, q as int),
                show == (|postings: FetchedPostings<'_>| fetched_matches(postings, q, kept)),
                match_models(found@) == before + fetched@.take(f as int).flat_map(show),
                documents_ids@ == if q == 0 {
                    word_documents(fetched@.take(f as int))
                } else {
                    word_documents(words@[0]@)
                },
            decreases fetched@.len() - f,
        {
            let ghost ids = documents_ids@;
            fetch_list(&mut found, &mut documents_ids, q, &fetched[f]);
            proof {
                let entry_kept = |document: DocumentId| q == 0 || ids.contains(document);
                assert(entry_kept =~= kept);
                fetched@.lemma_flat_map_take_append(show, f as int);
                assert(match_models(found@) =~= before + fetched@.take(f + 1).flat_map(show));
                if q == 0 {
                    lemma_word_documents_step(fetched@, f as int);
                }
            }
            f = f + 1;
        }
        proof {
            assert(fetched@.take(f as int) =~= fetched@);
            assert(by_word[q as int] == word_matches(fetched@, q, kept));
            assert(by_word.take(q + 1) =~= by_word.take(q as int).push(by_word[q as int]));
            by_word.take(q as int).lemma_flatten_push(by_word[q as int]);
        }
        q = q + 1;
    }
    assert(by_word.take(q as int) =~= by_word);
    found
}

/// Every match lies in a document in which the first word of the query was found.
pub proof fn matches_follow_the_first_word(
    words: Seq<Vec<FetchedPostings<'_>>>,
    query_index: int,
    m: int,
)
    requires
        0 <= query_index < words.len() <= usize::MAX,
        0 <= m < matches_by_word(words)[query_index].len(),
    ensures
        word_documents(words[0]@).contains(matches_by_word(words)[query_index][m].document_id),
        matches_by_word(words)[query_index][m].query_index == query_index,
{
    let kept = open_documents(words, query_index);
    let fetched = words[query_index]@;
    let show = |postings: FetchedPostings<'_>|
        fetched_matches(postings, query_index as usize, kept);
    let (f, k) = lemma_flatten_origin(fetched.map_values(show), m);
    matches_lie_in_kept_documents(
        fetched[f].input@,
        query_index as usize,
        fetched[f].distance,
        fetched[f].is_exact,
        cow_items(&*fetched[f].matches),
        kept,
        k,
    );
    if query_index == 0 {
        let indexes = cow_items(&*fetched[f].matches);
        let found = fetched_matches(fetched[f], 0, kept)[k];
        let position = found.postings.indexes[0];
        let i = choose|i: int| 0 <= i < indexes.len() && indexes[i] == position;
        assert(indexes.map_values(index_document())[i] == found.document_id);
        assert(documents_of(indexes).contains(found.document_id));
    }
}

/// Whether a document holds one of the positions of some postings lists.
pub open spec fn holds_one_of(
    document: DocumentId,
    fetched: Seq<FetchedPostings<'_>>,
) -> bool {
    exists|f: int, i: int|
        #![trigger cow_items(&*fetched[f].matches)[i]]
        0 <= f < fetched.len() && 0 <= i < cow_items(&*fetched[f].matches).len() && cow_items(
            &*fetched[f].matches,
        )[i].document_id == document
}

/// A word was found in the documents that hold a position of one of its lists.
pub proof fn word_documents_hold_positions(
    fetched: Seq<FetchedPostings<'_>>,
    document: DocumentId,
)
    ensures
        word_documents(fetched).contains(document) <==> holds_one_of(document, fetched),
{
    if word_documents(fetched).contains(document) {
        let f = choose|f: int|
            0 <= f < fetched.len() && documents_of(
                cow_items(&*(#[trigger] fetched[f]).matches),
            ).contains(document);
        let indexes = cow_items(&*fetched[f].matches);
        let documents = indexes.map_values(index_document());
        let i = choose|i: int| 0 <= i < documents.len() && documents[i] == document;
        assert(indexes[i].document_id == document);
    }
    if holds_one_of(document, fetched) {
        let (f, i) = choose|f: int, i: int|
            #![trigger cow_items(&*fetched[f].matches)[i]]
            0 <= f < fetched.len() && 0 <= i < cow_items(&*fetched[f].matches).len() && cow_items(
                &*fetched[f].matches,
            )[i].document_id == document;
        let indexes = cow_items(&*fetched[f].matches);
        assert(indexes.map_values(index_document())[i] == document);
        assert(documents_of(cow_items(&*fetched[f].matches)).contains(document));
    }
}

/// Each position of each postings list, whatever its distance and exactness, in a document where
/// the word may match, is held by a match of its document with what the list says: any document for
/// the first word of the query, and one in which the first word was found for the others.
pub proof fn every_list_makes_its_matches(
    words: Seq<Vec<FetchedPostings<'_>>>,
    found: Seq<BareMatch<PostingsListView<'_>>>,
    q: int,
    f: int,
    i: int,
) -> (m: int)
    requires
        match_models(found) == matches_by_word(words).flatten(),
        0 <= q < words.len() <= usize::MAX,
        0 <= f < words[q]@.len(),
        0 <= i < cow_items(&*words[q]@[f].matches).len(),
        q == 0 || holds_one_of(cow_items(&*words[q]@[f].matches)[i].document_id, words[0]@),
    ensures
        0 <= m < found.len(),
        found[m].document_id == cow_items(&*words[q]@[f].matches)[i].document_id,
        found[m].query_index == q,
        found[m].distance == words[q]@[f].distance,
        found[m].is_exact == words[q]@[f].is_exact,
        found[m].postings_list@.input == words[q]@[f].input@,
        found[m].postings_list@.indexes.contains(cow_items(&*words[q]@[f].matches)[i]),
{
    let kept = open_documents(words, q);
    let fetched = words[q]@;
    let indexes = cow_items(&*fetched[f].matches);
    let show = |postings: FetchedPostings<'_>| fetched_matches(postings, q as usize, kept);
    let lists = fetched.map_values(show);
    let by_word = matches_by_word(words);
    word_documents_hold_positions(words[0]@, indexes[i].document_id);
    let k = kept_positions_are_matched(
        fetched[f].input@,
        q as usize,
        fetched[f].distance,
        fetched[f].is_exact,
        indexes,
        kept,
        i,
    );
    matches_lie_in_kept_documents(
        fetched[f].input@,
        q as usize,
        fetched[f].distance,
        fetched[f].is_exact,
        indexes,
        kept,
        k,
    );
    lemma_flatten_piece(lists, f);
    let inner = lists.take(f).flatten().len() as int;
    assert(lists.flatten().subrange(inner, inner + lists[f].len())[k] == lists.flatten()[inner
        + k]);
    assert(by_word[q] == lists.flatten());
    lemma_flatten_piece(by_word, q);
    let outer = by_word.take(q).flatten().len() as int;
    assert(by_word.flatten().subrange(outer, outer + by_word[q].len())[inner + k]
        == by_word.flatten()[outer + inner + k]);
    assert(match_models(found)[outer + inner + k] == found[outer + inner + k]@);
    outer + inner + k
}

/// Each match stands for positions of one postings list, all in its document, in which its word may
/// match, and says what the list says.
pub proof fn every_match_is_of_a_list(
    words: Seq<Vec<FetchedPostings<'_>>>,
    found: Seq<BareMatch<PostingsListView<'_>>>,
    m: int,
) -> (origin: (int, int))
    requires
        match_models(found) == matches_by_word(words).flatten(),
        words.len() <= usize::MAX,
        0 <= m < found.len(),
    ensures
        0 <= origin.0 < words.len(),
        0 <= origin.1 < words[origin.0]@.len(),
        found[m].query_index == origin.0,
        found[m].distance == words[origin.0]@[origin.1].distance,
        found[m].is_exact == words[origin.0]@[origin.1].is_exact,
        found[m].postings_list@.input == words[origin.0]@[origin.1].input@,
        holds_one_of(found[m].document_id, words[0]@),
        found[m].postings_list@.indexes.len() > 0,
        forall|i: int|
            0 <= i < found[m].postings_list@.indexes.len() ==> cow_items(
                &*words[origin.0]@[origin.1].matches,
            ).contains(#[trigger] found[m].postings_list@.indexes[i])
                && found[m].postings_list@.indexes[i].document_id == found[m].document_id,
{
    let by_word = matches_by_word(words);
    assert(match_models(found)[m] == found[m]@);
    let (q, n) = lemma_flatten_origin(by_word, m);
    let kept = open_documents(words, q);
    let fetched = words[q]@;
    let show = |postings: FetchedPostings<'_>| fetched_matches(postings, q as usize, kept);
    assert(by_word[q] == fetched.map_values(show).flatten());
    let (f, k) = lemma_flatten_origin(fetched.map_values(show), n);
    matches_lie_in_kept_documents(
        fetched[f].input@,
        q as usize,
        fetched[f].distance,
        fetched[f].is_exact,
        cow_items(&*fetched[f].matches),
        kept,
        k,
    );
    matches_follow_the_first_word(words, q, n);
    word_documents_hold_positions(words[0]@, found[m].document_id);
    (q, f)
}

/// One more postings list of the last word adds matches behind the others: matches with what it
/// says, which hold together its positions in documents where the word may match, in their order.
/// If the list is by increasing document, each document has one of them.
pub proof fn one_more_list_adds_its_matches(
    words: Seq<Vec<FetchedPostings<'_>>>,
    word: Vec<FetchedPostings<'_>>,
    longer: Vec<FetchedPostings<'_>>,
    postings: FetchedPostings<'_>,
    before: Seq<BareMatch<PostingsListView<'_>>>,
    after: Seq<BareMatch<PostingsListView<'_>>>,
)
    requires
        words.len() < usize::MAX,
        longer@ == word@.push(postings),
        match_models(before) == matches_by_word(words.push(word)).flatten(),
        match_models(after) == matches_by_word(words.push(longer)).flatten(),
    ensures
        before.len() <= after.len(),
        match_models(after).take(before.len() as int) == match_models(before),
        after.skip(before.len() as int).map_values(
            |added: BareMatch<PostingsListView<'_>>| added.postings_list@.indexes,
        ).flatten() == cow_items(&*postings.matches).filter(
            |index: DocIndex| words.len() == 0 || holds_one_of(index.document_id, words[0]@),
        ),
        forall|m: int|
            before.len() <= m < after.len() ==> {
                &&& (#[trigger] after[m]).query_index == words.len()
                &&& after[m].distance == postings.distance
                &&& after[m].is_exact == postings.is_exact
                &&& after[m].postings_list@.input == postings.input@
                &&& !after[m].postings_list@.rewritten
                &&& after[m].postings_list@.indexes.len() > 0
                &&& forall|i: int|
                    0 <= i < after[m].postings_list@.indexes.len() ==> (
                    #[trigger] after[m].postings_list@.indexes[i]).document_id
                        == after[m].document_id
            },
        (forall|i: int, j: int|
            0 <= i <= j < cow_items(&*postings.matches).len() ==> (#[trigger] cow_items(
                &*postings.matches,
            )[i]).document_id <= (#[trigger] cow_items(&*postings.matches)[j]).document_id)
            ==> forall|m: int, n: int|
            before.len() <= m < n < after.len() ==> (#[trigger] after[m]).document_id < (
            #[trigger] after[n]).document_id,
{
    let q = words.len() as int;
    let indexes = cow_items(&*postings.matches);
    let (one, other) = (words.push(word), words.push(longer));
    let (short, long) = (matches_by_word(one), matches_by_word(other));
    let kept = open_documents(other, q);
    assert forall|d: DocumentId| #[trigger] open_documents(one, q)(d) == kept(d) by {
        if q > 0 {
            assert(one[0] == words[0] && other[0] == words[0]);
        }
    }
    assert(open_documents(one, q) =~= kept);
    assert forall|p: int| 0 <= p < q implies #[trigger] short[p] == long[p] by {
        assert(one[p] == words[p] && other[p] == words[p]);
        assert(one[0] == words[0] && other[0] == words[0]);
        assert(open_documents(one, p) =~= open_documents(other, p));
    }
    assert(short.take(q) =~= long.take(q));
    assert(short.take(q + 1) =~= short);
    assert(long.take(q + 1) =~= long);
    lemma_flatten_piece(short, q);
    lemma_flatten_piece(long, q);
    let show = |postings: FetchedPostings<'_>| fetched_matches(postings, q as usize, kept);
    longer@.lemma_flat_map_take_append(show, word@.len() as int);
    assert(longer@.take(word@.len() as int) =~= word@);
    assert(longer@.take(word@.len() as int + 1) =~= longer@);
    let added = fetched_matches(postings, q as usize, kept);
    assert(short[q] == word@.flat_map(show));
    assert(long[q] == word@.flat_map(show) + added);
    assert(long.flatten() =~= short.flatten() + added);
    let n = before.len() as int;
    assert(match_models(before).len() == n);
    assert(match_models(after).len() == after.len());
    assert(match_models(after).take(n) =~= match_models(before));
    assert forall|m: int| n <= m < after.len() implies (#[trigger] after[m])@ == added[m - n] by {
        assert(match_models(after)[m] == after[m]@);
    }
    matches_hold_the_kept_positions(
        postings.input@,
        q as usize,
        postings.distance,
        postings.is_exact,
        indexes,
        kept,
    );
    assert(after.skip(n).map_values(
        |added: BareMatch<PostingsListView<'_>>| added.postings_list@.indexes,
    ) =~= added.map_values(|found: MatchModel| found.postings.indexes));
    let open = |index: DocIndex| words.len() == 0 || holds_one_of(index.document_id, words[0]@);
    assert((|index: DocIndex| kept(index.document_id)) =~= open) by {
        assert forall|index: DocIndex| #[trigger] open(index) == kept(index.document_id) by {
            if q > 0 {
                assert(other[0] == words[0]);
                word_documents_hold_positions(words[0]@, index.document_id);
            }
        }
    }
    assert forall|m: int| n <= m < after.len() implies {
        &&& (#[trigger] after[m]).query_index == words.len()
        &&& after[m].distance == postings.distance
        &&& after[m].is_exact == postings.is_exact
        &&& after[m].postings_list@.input == postings.input@
        &&& !after[m].postings_list@.rewritten
        &&& after[m].postings_list@.indexes.len() > 0
        &&& forall|i: int|
            0 <= i < after[m].postings_list@.indexes.len() ==> (
            #[trigger] after[m].postings_list@.indexes[i]).document_id == after[m].document_id
    } by {
        assert(after[m]@ == added[m - n]);
        matches_lie_in_kept_documents(
            postings.input@,
            q as usize,
            postings.distance,
            postings.is_exact,
            indexes,
            kept,
            m - n,
        );
    }
    if forall|i: int, j: int|
        0 <= i <= j < indexes.len() ==> (#[trigger] indexes[i]).document_id <= (
        #[trigger] indexes[j]).document_id {
        assert forall|m: int, o: int| n <= m < o < after.len() implies (
        #[trigger] after[m]).document_id < (#[trigger] after[o]).document_id by {
            assert(after[m]@ == added[m - n] && after[o]@ == added[o - n]);
            sorted_lists_match_each_document_once(
                postings.input@,
                q as usize,
                postings.distance,
                postings.is_exact,
                indexes,
                kept,
                m - n,
                o - n,
            );
        }
    }
}

/// A last word without postings lists adds no match, and without words there is none.
pub proof fn no_list_no_match(
    words: Seq<Vec<FetchedPostings<'_>>>,
    word: Vec<FetchedPostings<'_>>,
)
    requires
        word@.len() == 0,
    ensures
        matches_by_word(words.push(word)).flatten() == matches_by_word(words).flatten(),
        matches_by_word(Seq::empty()).flatten() == Seq::<MatchModel>::empty(),
{
    let q = words.len() as int;
    let longer = words.push(word);
    let (short, long) = (matches_by_word(words), matches_by_word(longer));
    assert forall|p: int| 0 <= p < q implies #[trigger] short[p] == long[p] by {
        assert(longer[p] == words[p] && longer[0] == words[0]);
        assert(open_documents(words, p) =~= open_documents(longer, p));
    }
    assert(long.take(q) =~= short);
    assert(long.take(q + 1) =~= long);
    lemma_flatten_piece(long, q);
    let show = |postings: FetchedPostings<'_>|
        fetched_matches(postings, q as usize, open_documents(longer, q));
    assert(long[q] == word@.flat_map(show));
    assert(word@.map_values(show) =~= Seq::empty());
    assert(long[q] =~= Seq::empty());
    assert(long.flatten() =~= short.flatten());
    assert(matches_by_word(Seq::empty()) =~= Seq::empty());
    assert(matches_by_word(Seq::empty()).flatten() =~= Seq::<MatchModel>::empty());
}

} // verus!
