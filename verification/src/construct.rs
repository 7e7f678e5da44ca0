//! The automatons of a query: those of its words, and behind them those of what may stand for
//! them.

use std::ops::Range;

use fst::Set as FstSet;
use vstd::prelude::*;
use vstd::utf8::{decode_utf8, encode_utf8, valid_utf8};

use crate::automaton::{automaton_models, AutomatonModel, QueryWordAutomaton};
use crate::grouping::{lemma_flatten_origin, lemma_flatten_piece};
use crate::query::{are_all, classifies, is_incomplete, Ngram, NgramModel};
use crate::typos::{
    accepted, levenshtein, measures, measures_prefixes, near, near_prefix, TypoTolerance,
};
use crate::words::{fst_words, listing, search, texts};

verus! {

/// The texts with synonyms that a text is looked up as.
pub open spec fn base_texts(text: Seq<char>, is_prefix: bool, tolerance: TypoTolerance) -> Map<
    Seq<u8>,
    u8,
> {
    if is_prefix {
        near_prefix(tolerance.max(), tolerance.transposition(), text)
    } else {
        near(tolerance.max(), tolerance.transposition(), text)
    }
}

/// The texts with synonyms that stand for a text, up to typos, or that start with it where its last
/// word may be still incomplete. They come in the order of a dictionary.
pub fn synonym_bases(
    synonyms: &FstSet,
    normalized: &str,
    is_prefix: bool,
    tolerance: &TypoTolerance,
) -> (bases: Vec<Vec<u8>>)
    ensures
        listing(
            bases@,
            fst_words(synonyms).filter(
                |base: Seq<u8>| base_texts(normalized@, is_prefix, *tolerance).dom().contains(base),
            ),
        ),
        forall|base: Seq<u8>|
            valid_utf8(base) ==> ((#[trigger] base_texts(
                normalized@,
                is_prefix,
                *tolerance,
            ).dom().contains(base) && base_texts(normalized@, is_prefix, *tolerance)[base] == 0)
                <==> if is_prefix {
                encode_utf8(normalized@).is_prefix_of(base)
            } else {
                base == encode_utf8(normalized@)
            }),
        listing(
            bases@,
            fst_words(synonyms).filter(
                |base: Seq<u8>|
                    if is_prefix {
                        near_prefix(
                            tolerance.max(),
                            tolerance.transposition(),
                            normalized@,
                        ).dom().contains(base)
                    } else {
                        near(
                            tolerance.max(),
                            tolerance.transposition(),
                            normalized@,
                        ).dom().contains(base)
                    },
            ),
        ),
        forall|base: Seq<u8>| #[trigger]
            fst_words(synonyms).contains(base) && valid_utf8(base) && (if is_prefix {
                encode_utf8(normalized@).is_prefix_of(base)
            } else {
                levenshtein(normalized@, decode_utf8(base)) <= tolerance.max()
            }) ==> exists|i: int| 0 <= i < bases@.len() && (#[trigger] bases@[i])@ == base,
        !is_prefix ==> measures(
            base_texts(normalized@, is_prefix, *tolerance),
            tolerance.max(),
            tolerance.transposition(),
            normalized@,
        ),
        is_prefix ==> measures_prefixes(
            base_texts(normalized@, is_prefix, *tolerance),
            tolerance.max(),
            tolerance.transposition(),
            normalized@,
        ),
{
    let lev = if is_prefix {
        tolerance.build_prefix_dfa(normalized)
    } else {
        tolerance.build_dfa(normalized)
    };
    let bases = search(synonyms, &lev);
    assert(fst_words(synonyms).filter(|word: Seq<u8>| accepted(&lev).dom().contains(word))
        =~= fst_words(synonyms).filter(
        |base: Seq<u8>| base_texts(normalized@, is_prefix, *tolerance).dom().contains(base),
    ));
    proof {
        let wanted = fst_words(synonyms).filter(
            |word: Seq<u8>| accepted(&lev).dom().contains(word),
        );
        assert(wanted =~= fst_words(synonyms).filter(
            |base: Seq<u8>|
                if is_prefix {
                    near_prefix(
                        tolerance.max(),
                        tolerance.transposition(),
                        normalized@,
                    ).dom().contains(base)
                } else {
                    near(
                        tolerance.max(),
                        tolerance.transposition(),
                        normalized@,
                    ).dom().contains(base)
                },
        ));
        assert forall|base: Seq<u8>| #[trigger]
            fst_words(synonyms).contains(base) && valid_utf8(base) && (if is_prefix {
                encode_utf8(normalized@).is_prefix_of(base)
            } else {
                levenshtein(normalized@, decode_utf8(base)) <= tolerance.max()
            }) implies exists|i: int|
            0 <= i < bases@.len() && (#[trigger] bases@[i])@ == base by {
            assert(accepted(&lev).dom().contains(base));
            assert(wanted.contains(base));
            let found = texts(bases@);
            assert(found.to_set().contains(base));
            let i = choose|i: int| 0 <= i < found.len() && found[i] == base;
            assert(bases@[i]@ == base);
        }
    }
    bases
}

/// Whether a text with synonyms stands for an n-gram: only when it has as many words. So "new " has
/// none of the alternatives of "new york", which "new yo" has.
pub fn triggers_alternatives(ngram: &Ngram, base_nb_words: usize) -> (result: bool)
    ensures
        result == (ngram@.end - ngram@.start == base_nb_words),
{
    ngram.range.start <= ngram.range.end && ngram.range.end - ngram.range.start == base_nb_words
}

/// Whether a text of this many words stands for an n-gram.
pub open spec fn has_words_of(ngram: NgramModel) -> spec_fn((usize, Vec<Vec<String>>)) -> bool {
    |base: (usize, Vec<Vec<String>>)| ngram.end - ngram.start == base.0
}

/// The synonyms of an n-gram, out of texts that were found for it, each given by its number of
/// words and its synonyms: those of the texts that stand for the n-gram, text after text.
pub fn ngram_synonyms(ngram: &Ngram, read: Vec<(usize, Vec<Vec<String>>)>) -> (synonyms: Vec<
    Vec<String>,
>)
    ensures
        synonyms@ == read@.filter(has_words_of(ngram@)).flat_map(
            |base: (usize, Vec<Vec<String>>)| base.1@,
        ),
        synonyms@ == read@.filter(
            |base: (usize, Vec<Vec<String>>)| ngram.range.end - ngram.range.start == base.0,
        ).flat_map(|base: (usize, Vec<Vec<String>>)| base.1@),
{
    let ghost all = read@;
    let ghost keep = has_words_of(ngram@);
    let ghost show = |base: (usize, Vec<Vec<String>>)| base.1@;
    let mut synonyms: Vec<Vec<String>> = Vec::new();
    proof {
        reveal(Seq::filter);
        assert(synonyms@ =~= all.take(0).filter(keep).flat_map(show));
    }
    for base in iter: read
        invariant
            iter.seq() == all,
            keep == has_words_of(ngram@),
            show == (|base: (usize, Vec<Vec<String>>)| base.1@),
            synonyms@ == all.take(iter.index() as int).filter(keep).flat_map(show),
    {
        proof {
            let i = iter.index() as int;
            let kept = all.take(i).filter(keep);
            assert(all.take(i + 1) =~= all.take(i).push(base));
            all.take(i).lemma_filter_push(base, keep);
            kept.map_values(show).lemma_flatten_push(show(base));
            assert(kept.push(base).map_values(show) =~= kept.map_values(show).push(show(base)));
        }
        let (base_nb_words, words) = base;
        if triggers_alternatives(ngram, base_nb_words) {
            let mut words = words;
            synonyms.append(&mut words);
        }
    }
    proof {
        assert(all.take(all.len() as int) =~= all);
        assert(keep =~= (|base: (usize, Vec<Vec<String>>)| ngram.range.end - ngram.range.start
            == base.0));
    }
    synonyms
}

/// A text with as many words as an n-gram lends it its synonyms, behind those of the texts before
/// it, and another text lends it none.
pub proof fn one_more_base_lends_its_synonyms(
    ngram: Ngram,
    read: Seq<(usize, Vec<Vec<String>>)>,
    base: (usize, Vec<Vec<String>>),
)
    ensures
        read.push(base).filter(has_words_of(ngram@)).flat_map(
            |base: (usize, Vec<Vec<String>>)| base.1@,
        ) == read.filter(has_words_of(ngram@)).flat_map(
            |base: (usize, Vec<Vec<String>>)| base.1@,
        ) + if ngram.range.end - ngram.range.start == base.0 {
            base.1@
        } else {
            Seq::empty()
        },
{
    let keep = has_words_of(ngram@);
    let show = |base: (usize, Vec<Vec<String>>)| base.1@;
    let kept = read.filter(keep);
    read.lemma_filter_push(base, keep);
    kept.map_values(show).lemma_flatten_push(show(base));
    assert(kept.push(base).map_values(show) =~= kept.map_values(show).push(show(base)));
    assert(kept.flat_map(show) + Seq::<Vec<String>>::empty() =~= kept.flat_map(show));
}

/// What may stand for an n-gram.
#[derive(Debug)]
pub struct Alternatives {
    /// The words of each synonym.
    pub synonyms: Vec<Vec<String>>,
    /// The parts of a single word that can be split.
    pub split: Option<(String, String)>,
    /// Several words written as one.
    pub concatenation: String,
}

/// What a [`crate::query::Ngram`] may also be found as.
#[derive(Debug)]
pub struct Declaration {
    /// The positions in the query of the words that are stood for.
    pub range: Range<usize>,
    /// The position of the automaton of the first word that stands for them.
    pub real_query_index: usize,
    /// The words that stand for them, whose automatons follow each other.
    pub words: Vec<String>,
}

/// Automatons that follow each other and stand together for words of the query.
pub struct Block {
    pub start: int,
    pub end: int,
    pub automatons: Seq<AutomatonModel>,
}

/// The automaton of a word.
pub open spec fn word_automaton(
    query: Seq<char>,
    is_exact: bool,
    is_prefix: bool,
    phrase_query: Option<(u16, u16)>,
) -> AutomatonModel {
    AutomatonModel { query, is_exact, is_prefix, phrase_query }
}

/// The automatons of the words of a query: exact ones, of which the last one may be a prefix.
pub open spec fn original_automatons<F: Fn(char) -> bool>(
    words: Seq<String>,
    end_whitespace: bool,
    is_cjk: F,
) -> Seq<AutomatonModel> {
    Seq::new(
        words.len(),
        |i: int|
            word_automaton(
                words[i]@,
                true,
                is_incomplete(is_cjk, words[i]@, i + 1 < words.len(), end_whitespace),
                None,
            ),
    )
}

/// The automatons of the words of a synonym: derived words, none of them exact.
pub open spec fn synonym_block(ngram: NgramModel, words: Seq<String>) -> Block {
    Block {
        start: ngram.start,
        end: ngram.end,
        automatons: words.map_values(|word: String| word_automaton(word@, false, false, None)),
    }
}

/// The automaton of one word that stands for an n-gram.
pub open spec fn single_block(
    ngram: NgramModel,
    word: Seq<char>,
    phrase_query: Option<(u16, u16)>,
) -> Block {
    Block {
        start: ngram.start,
        end: ngram.end,
        automatons: seq![word_automaton(word, true, false, phrase_query)],
    }
}

/// The automatons of what else an n-gram may be written as: the two parts of a single word, as a
/// phrase, or several words as one.
pub open spec fn spelling_blocks(ngram: NgramModel, alternatives: Alternatives) -> Seq<Block> {
    if ngram.end - ngram.start == 1 {
        match alternatives.split {
            Some((left, right)) => seq![
                single_block(ngram, left@, Some((0, 2))),
                single_block(ngram, right@, Some((1, 2))),
            ],
            None => seq![],
        }
    } else {
        seq![single_block(ngram, alternatives.concatenation@, None)]
    }
}

/// The automatons of what may stand for an n-gram: its synonyms, then its other spellings.
pub open spec fn ngram_blocks(ngram: NgramModel, alternatives: Alternatives) -> Seq<Block> {
    alternatives.synonyms@.map_values(|words: Vec<String>| synonym_block(ngram, words@))
        + spelling_blocks(ngram, alternatives)
}

/// The automatons of what may stand for n-grams, n-gram after n-gram.
pub open spec fn all_blocks(ngrams: Seq<Ngram>, alternatives: Seq<Alternatives>) -> Seq<Block> {
    Seq::new(ngrams.len(), |g: int| ngram_blocks(ngrams[g]@, alternatives[g])).flatten()
}

/// The automatons of several blocks.
pub open spec fn block_automatons(blocks: Seq<Block>) -> Seq<AutomatonModel> {
    blocks.flat_map(|block: Block| block.automatons)
}

/// Whether a declaration is that of a block whose first automaton stands at `index`.
pub open spec fn declares(declaration: Declaration, block: Block, index: nat) -> bool {
    &&& declaration.range.start == block.start
    &&& declaration.range.end == block.end
    &&& declaration.real_query_index == index
    &&& declaration.words@.len() == block.automatons.len()
    &&& forall|i: int|
        0 <= i < declaration.words@.len() ==> (#[trigger] declaration.words@[i])@
            == block.automatons[i].query
}

/// Whether these are the automatons of the words of the query, then those of the blocks, and the
/// declarations are those of the blocks.
pub open spec fn constructed(
    originals: Seq<AutomatonModel>,
    blocks: Seq<Block>,
    automatons: Seq<QueryWordAutomaton>,
    declarations: Seq<Declaration>,
) -> bool {
    &&& automaton_models(automatons) == originals + block_automatons(blocks)
    &&& declarations.len() == blocks.len()
    &&& forall|b: int|
        0 <= b < blocks.len() ==> declares(
            #[trigger] declarations[b],
            blocks[b],
            originals.len() + block_automatons(blocks.take(b)).len(),
        )
}

/// One more block, with its automatons and its declaration.
proof fn lemma_block_step(
    originals: Seq<AutomatonModel>,
    blocks: Seq<Block>,
    block: Block,
    automatons: Seq<QueryWordAutomaton>,
    declarations: Seq<Declaration>,
    added: Seq<QueryWordAutomaton>,
    declaration: Declaration,
)
    requires
        constructed(originals, blocks, automatons, declarations),
        automaton_models(added) == block.automatons,
        declares(declaration, block, automatons.len()),
    ensures
        constructed(
            originals,
            blocks.push(block),
            automatons + added,
            declarations.push(declaration),
        ),
{
    let show = |block: Block| block.automatons;
    let longer = blocks.push(block);
    longer.lemma_flat_map_take_append(show, blocks.len() as int);
    assert(longer.take(blocks.len() as int) =~= blocks);
    assert(longer.take(blocks.len() as int + 1) =~= longer);
    assert(automaton_models(automatons + added) =~= automaton_models(automatons)
        + automaton_models(added));
    assert(automaton_models(automatons + added) =~= originals + block_automatons(longer));
    assert forall|b: int| 0 <= b < longer.len() implies declares(
        #[trigger] declarations.push(declaration)[b],
        longer[b],
        originals.len() + block_automatons(longer.take(b)).len(),
    ) by {
        if b < blocks.len() {
            assert(longer.take(b) =~= blocks.take(b));
            assert(declarations.push(declaration)[b] == declarations[b]);
        } else {
            assert(longer.take(b) =~= blocks);
            assert(automaton_models(automatons).len() == automatons.len());
        }
    }
}

/// Adds the automatons of the words of a synonym, and declares them.
fn push_synonym(
    automatons: &mut Vec<QueryWordAutomaton>,
    declarations: &mut Vec<Declaration>,
    ngram: &Ngram,
    words: &Vec<String>,
)
    ensures
        forall|originals: Seq<AutomatonModel>, blocks: Seq<Block>| #[trigger]
            constructed(originals, blocks, old(automatons)@, old(declarations)@) ==> constructed(
                originals,
                blocks.push(synonym_block(ngram@, words@)),
                final(automatons)@,
                final(declarations)@,
            ),
{
    let ghost before = automatons@;
    let ghost declared = declarations@;
    let ghost block = synonym_block(ngram@, words@);
    let real_query_index = automatons.len();
    let mut synonyms_words: Vec<String> = Vec::new();
    let mut i: usize = 0;
    assert(before =~= before + automatons@.skip(before.len() as int));
    while i < words.len()
        invariant
            i <= words@.len(),
            block == synonym_block(ngram@, words@),
            synonyms_words@.len() == i,
            automatons@.len() == before.len() + i,
            automatons@ == before + automatons@.skip(before.len() as int),
            forall|j: int|
                0 <= j < i ==> (#[trigger] synonyms_words@[j])@ == block.automatons[j].query,
            forall|j: int|
                0 <= j < i ==> (#[trigger] automatons@[before.len() + j])@ == block.automatons[j],
        decreases words@.len() - i,
    {
        synonyms_words.push(words[i].clone());
        automatons.push(QueryWordAutomaton::non_exact(words[i].as_str()));
        i = i + 1;
        assert(automatons@ =~= before + automatons@.skip(before.len() as int));
    }
    let declaration = Declaration {
        range: ngram.range.start..ngram.range.end,
        real_query_index,
        words: synonyms_words,
    };
    declarations.push(declaration);
    proof {
        let added = automatons@.skip(before.len() as int);
        assert(automaton_models(added) =~= block.automatons) by {
            assert forall|j: int| 0 <= j < added.len() implies added[j]@
                == block.automatons[j] by {
                assert(automatons@[before.len() + j] == added[j]);
            }
        }
        assert forall|originals: Seq<AutomatonModel>, blocks: Seq<Block>| #[trigger]
            constructed(originals, blocks, before, declared) implies constructed(
            originals,
            blocks.push(block),
            automatons@,
            declarations@,
        ) by {
            lemma_block_step(originals, blocks, block, before, declared, added, declaration);
        }
    }
}

/// Adds the exact automaton of one word that stands for an n-gram, and declares it.
fn push_single(
    automatons: &mut Vec<QueryWordAutomaton>,
    declarations: &mut Vec<Declaration>,
    ngram: &Ngram,
    word: &String,
    phrase_query: Option<(u16, u16)>,
)
    ensures
        forall|originals: Seq<AutomatonModel>, blocks: Seq<Block>| #[trigger]
            constructed(originals, blocks, old(automatons)@, old(declarations)@) ==> constructed(
                originals,
                blocks.push(single_block(ngram@, word@, phrase_query)),
                final(automatons)@,
                final(declarations)@,
            ),
{
    let ghost before = automatons@;
    let ghost declared = declarations@;
    let ghost block = single_block(ngram@, word@, phrase_query);
    let mut words: Vec<String> = Vec::new();
    words.push(word.clone());
    let declaration = Declaration {
        range: ngram.range.start..ngram.range.end,
        real_query_index: automatons.len(),
        words,
    };
    let mut automaton = QueryWordAutomaton::exact(word.as_str());
    automaton.phrase_query = phrase_query;
    automatons.push(automaton);
    declarations.push(declaration);
    proof {
        let added = seq![automaton];
        assert(automaton_models(added) =~= block.automatons);
        assert(automatons@ =~= before + added);
        assert forall|originals: Seq<AutomatonModel>, blocks: Seq<Block>| #[trigger]
            constructed(originals, blocks, before, declared) implies constructed(
            originals,
            blocks.push(block),
            automatons@,
            declarations@,
        ) by {
            lemma_block_step(originals, blocks, block, before, declared, added, declaration);
        }
    }
}

/// Adds the automatons of what may stand for an n-gram, and declares them.
fn push_alternatives(
    automatons: &mut Vec<QueryWordAutomaton>,
    declarations: &mut Vec<Declaration>,
    ngram: &Ngram,
    alternatives: &Alternatives,
)
    ensures
        forall|originals: Seq<AutomatonModel>, blocks: Seq<Block>| #[trigger]
            constructed(originals, blocks, old(automatons)@, old(declarations)@) ==> constructed(
                originals,
                blocks + ngram_blocks(ngram@, *alternatives),
                final(automatons)@,
                final(declarations)@,
            ),
{
    let ghost before = automatons@;
    let ghost declared = declarations@;
    let ghost synonyms = alternatives.synonyms@.map_values(
        |words: Vec<String>| synonym_block(ngram@, words@),
    );
    let mut i: usize = 0;
    proof {
        assert forall|originals: Seq<AutomatonModel>, blocks: Seq<Block>| #[trigger]
            constructed(originals, blocks, before, declared) implies constructed(
            originals,
            blocks + synonyms.take(0),
            automatons@,
            declarations@,
        ) by {
            assert(blocks + synonyms.take(0) =~= blocks);
        }
    }
    while i < alternatives.synonyms.len()
        invariant
            i <= alternatives.synonyms@.len(),
            synonyms == alternatives.synonyms@.map_values(
                |words: Vec<String>| synonym_block(ngram@, words@),
            ),
            forall|originals: Seq<AutomatonModel>, blocks: Seq<Block>| #[trigger]
                constructed(originals, blocks, before, declared) ==> constructed(
                    originals,
                    blocks + synonyms.take(i as int),
                    automatons@,
                    declarations@,
                ),
        decreases alternatives.synonyms@.len() - i,
    {
        push_synonym(automatons, declarations, ngram, &alternatives.synonyms[i]);
        proof {
            assert forall|originals: Seq<AutomatonModel>, blocks: Seq<Block>| #[trigger]
                constructed(originals, blocks, before, declared) implies constructed(
                originals,
                blocks + synonyms.take(i + 1),
                automatons@,
                declarations@,
            ) by {
                assert(blocks + synonyms.take(i + 1) =~= (blocks + synonyms.take(i as int)).push(
                    synonyms[i as int],
                ));
            }
        }
        i = i + 1;
    }
    assert(synonyms.take(i as int) =~= synonyms);
    if ngram.range.start < ngram.range.end && ngram.range.end - ngram.range.start == 1 {
        if let Some((left, right)) = &alternatives.split {
            push_single(automatons, declarations, ngram, left, Some((0, 2)));
            push_single(automatons, declarations, ngram, right, Some((1, 2)));
            proof {
                assert forall|originals: Seq<AutomatonModel>, blocks: Seq<Block>| #[trigger]
                    constructed(originals, blocks, before, declared) implies constructed(
                    originals,
                    blocks + ngram_blocks(ngram@, *alternatives),
                    automatons@,
                    declarations@,
                ) by {
                    assert(blocks + ngram_blocks(ngram@, *alternatives) =~= (blocks
                        + synonyms).push(single_block(ngram@, left@, Some((0, 2)))).push(
                        single_block(ngram@, right@, Some((1, 2))),
                    ));
                }
            }
        } else {
            assert(ngram_blocks(ngram@, *alternatives) =~= synonyms);
        }
    } else {
        push_single(automatons, declarations, ngram, &alternatives.concatenation, None);
        proof {
            assert forall|originals: Seq<AutomatonModel>, blocks: Seq<Block>| #[trigger]
                constructed(originals, blocks, before, declared) implies constructed(
                originals,
                blocks + ngram_blocks(ngram@, *alternatives),
                automatons@,
                declarations@,
            ) by {
                assert(blocks + ngram_blocks(ngram@, *alternatives) =~= (blocks + synonyms).push(
                    single_block(ngram@, alternatives.concatenation@, None),
                ));
            }
        }
    }
}

/// The automatons of a query, and what the query enhancer is told of them. The words of the query
/// come first, undeclared. Behind them comes, n-gram after n-gram, what may stand for each of them,
/// declared with the place of its first automaton.
pub fn construct_automatons<F: Fn(char) -> bool>(
    words: &Vec<String>,
    end_whitespace: bool,
    is_cjk: &F,
    ngrams: &Vec<Ngram>,
    alternatives: &Vec<Alternatives>,
) -> (result: (Vec<QueryWordAutomaton>, Vec<Declaration>))
    requires
        classifies(*is_cjk),
        alternatives@.len() == ngrams@.len(),
    ensures
        constructed(
            original_automatons(words@, end_whitespace, *is_cjk),
            all_blocks(ngrams@, alternatives@),
            result.0@,
            result.1@,
        ),
{
    let ghost originals = original_automatons(words@, end_whitespace, *is_cjk);
    let ghost by_ngram = Seq::new(
        ngrams@.len(),
        |g: int| ngram_blocks(ngrams@[g]@, alternatives@[g]),
    );
    let mut automatons: Vec<QueryWordAutomaton> = Vec::new();
    let mut declarations: Vec<Declaration> = Vec::new();
    let mut i: usize = 0;
    while i < words.len()
        invariant
            i <= words@.len(),
            classifies(*is_cjk),
            originals == original_automatons(words@, end_whitespace, *is_cjk),
            automaton_models(automatons@) == originals.take(i as int),
        decreases words@.len() - i,
    {
        let word = words[i].as_str();
        let has_following_word = i + 1 < words.len();
        let not_prefix_dfa = has_following_word || end_whitespace || are_all(is_cjk, word);
        let automaton = if not_prefix_dfa {
            QueryWordAutomaton::exact(word)
        } else {
            QueryWordAutomaton::exact_prefix(word)
        };
        let ghost shown = automaton_models(automatons@);
        automatons.push(automaton);
        proof {
            assert(automaton@ == originals[i as int]);
            assert(automaton_models(automatons@) =~= shown.push(automaton@));
            assert(automaton_models(automatons@) =~= originals.take(i + 1));
        }
        i = i + 1;
    }
    proof {
        assert(originals.take(i as int) =~= originals);
        assert(by_ngram.take(0).flatten() =~= Seq::empty());
        assert(block_automatons(Seq::<Block>::empty()) =~= Seq::empty());
        assert(automaton_models(automatons@) =~= originals + block_automatons(Seq::empty()));
    }
    let mut g: usize = 0;
    while g < ngrams.len()
        invariant
            g <= ngrams@.len() == by_ngram.len() == alternatives@.len(),
            forall|k: int|
                0 <= k < by_ngram.len() ==> #[trigger] by_ngram[k] == ngram_blocks(
                    ngrams@[k]@,
                    alternatives@[k],
                ),
            constructed(
                originals,
                by_ngram.take(g as int).flatten(),
                automatons@,
                declarations@,
            ),
        decreases ngrams@.len() - g,
    {
        push_alternatives(&mut automatons, &mut declarations, &ngrams[g], &alternatives[g]);
        proof {
            assert(by_ngram.take(g + 1) =~= by_ngram.take(g as int).push(by_ngram[g as int]));
            by_ngram.take(g as int).lemma_flatten_push(by_ngram[g as int]);
        }
        g = g + 1;
    }
    assert(by_ngram.take(g as int) =~= by_ngram);
    (automatons, declarations)
}

/// The automatons of the words of the query come first, and none of them is declared.
pub proof fn original_words_come_first(
    originals: Seq<AutomatonModel>,
    blocks: Seq<Block>,
    automatons: Seq<QueryWordAutomaton>,
    declarations: Seq<Declaration>,
    b: int,
)
    requires
        constructed(originals, blocks, automatons, declarations),
        0 <= b < declarations.len(),
    ensures
        automaton_models(automatons).take(originals.len() as int) == originals,
        declarations[b].real_query_index >= originals.len(),
{
    assert(automaton_models(automatons).take(originals.len() as int) =~= originals);
    assert(declares(
        declarations[b],
        blocks[b],
        originals.len() + block_automatons(blocks.take(b)).len(),
    ));
}

/// Each word that is declared has its automaton: they stand behind each other from the declared
/// place on.
pub proof fn declared_words_have_automatons(
    originals: Seq<AutomatonModel>,
    blocks: Seq<Block>,
    automatons: Seq<QueryWordAutomaton>,
    declarations: Seq<Declaration>,
    b: int,
    i: int,
)
    requires
        constructed(originals, blocks, automatons, declarations),
        0 <= b < declarations.len(),
        0 <= i < declarations[b].words@.len(),
    ensures
        declarations[b].real_query_index + i < automatons.len(),
        automatons[declarations[b].real_query_index + i].query@ == declarations[b].words@[i]@,
{
    let show = |block: Block| block.automatons;
    let pieces = blocks.map_values(show);
    let start = block_automatons(blocks.take(b)).len();
    assert(declares(declarations[b], blocks[b], originals.len() + start));
    lemma_flatten_piece(pieces, b);
    assert(pieces.take(b) =~= blocks.take(b).map_values(show));
    let models = automaton_models(automatons);
    assert(models == originals + pieces.flatten());
    assert(models.len() == automatons.len());
    assert(models[originals.len() + start + i] == pieces.flatten()[start + i]);
    assert(pieces.flatten().subrange(start as int, start as int + pieces[b].len())[i]
        == pieces[b][i]);
}

/// The declared automatons leave no gap: each declaration starts where the one before it ends, the
/// first one behind the words of the query and the last one ends with the automatons.
pub proof fn declarations_leave_no_gap(
    originals: Seq<AutomatonModel>,
    blocks: Seq<Block>,
    automatons: Seq<QueryWordAutomaton>,
    declarations: Seq<Declaration>,
    b: int,
)
    requires
        constructed(originals, blocks, automatons, declarations),
        0 <= b < declarations.len(),
    ensures
        b == 0 ==> declarations[b].real_query_index == originals.len(),
        declarations[b].real_query_index + declarations[b].words@.len() == if b + 1
            < declarations.len() {
            declarations[b + 1].real_query_index as int
        } else {
            automatons.len() as int
        },
{
    let show = |block: Block| block.automatons;
    assert(declares(
        declarations[b],
        blocks[b],
        originals.len() + block_automatons(blocks.take(b)).len(),
    ));
    blocks.lemma_flat_map_take_append(show, b);
    if b == 0 {
        assert(block_automatons(blocks.take(0)) =~= Seq::empty());
    }
    if b + 1 < declarations.len() {
        assert(declares(
            declarations[b + 1],
            blocks[b + 1],
            originals.len() + block_automatons(blocks.take(b + 1)).len(),
        ));
    } else {
        assert(blocks.take(b + 1) =~= blocks);
        assert(automaton_models(automatons).len() == automatons.len());
    }
}

/// Only the automaton of the last word of the query can be that of a prefix.
pub proof fn only_the_last_word_is_a_prefix<F: Fn(char) -> bool>(
    words: Seq<String>,
    end_whitespace: bool,
    is_cjk: F,
    ngrams: Seq<Ngram>,
    alternatives: Seq<Alternatives>,
    automatons: Seq<QueryWordAutomaton>,
    declarations: Seq<Declaration>,
    i: int,
)
    requires
        constructed(
            original_automatons(words, end_whitespace, is_cjk),
            all_blocks(ngrams, alternatives),
            automatons,
            declarations,
        ),
        0 <= i < automatons.len(),
        automatons[i].is_prefix,
    ensures
        i == words.len() - 1,
        !end_whitespace,
{
    let originals = original_automatons(words, end_whitespace, is_cjk);
    let blocks = all_blocks(ngrams, alternatives);
    let models = automaton_models(automatons);
    assert(models[i].is_prefix);
    if i < words.len() {
        assert(models[i] == originals[i]);
    } else {
        let by_ngram = Seq::new(ngrams.len(), |g: int| ngram_blocks(ngrams[g]@, alternatives[g]));
        let pieces = blocks.map_values(|block: Block| block.automatons);
        assert(models == originals + pieces.flatten());
        assert(models.len() == automatons.len());
        assert(models[i] == pieces.flatten()[i - words.len()]);
        let (b, k) = lemma_flatten_origin(pieces, i - words.len());
        let (g, j) = lemma_flatten_origin(by_ngram, b);
        let block = ngram_blocks(ngrams[g]@, alternatives[g])[j];
        assert(block.automatons[k].is_prefix);
        if j < alternatives[g].synonyms@.len() {
            assert(block == synonym_block(ngrams[g]@, alternatives[g].synonyms@[j]@));
        } else {
            assert(block == spelling_blocks(ngrams[g]@, alternatives[g])[j
                - alternatives[g].synonyms@.len()]);
        }
        assert(false);
    }
}

/// Where the automaton of a word of a block stands.
proof fn lemma_block_automaton(
    originals: Seq<AutomatonModel>,
    blocks: Seq<Block>,
    automatons: Seq<QueryWordAutomaton>,
    declarations: Seq<Declaration>,
    b: int,
    i: int,
)
    requires
        constructed(originals, blocks, automatons, declarations),
        0 <= b < blocks.len(),
        0 <= i < blocks[b].automatons.len(),
    ensures
        declares(
            declarations[b],
            blocks[b],
            originals.len() + block_automatons(blocks.take(b)).len(),
        ),
        declarations[b].real_query_index + i < automatons.len(),
        automatons[declarations[b].real_query_index + i]@ == blocks[b].automatons[i],
{
    let show = |block: Block| block.automatons;
    let pieces = blocks.map_values(show);
    let start = block_automatons(blocks.take(b)).len();
    assert(declares(declarations[b], blocks[b], originals.len() + start));
    lemma_flatten_piece(pieces, b);
    assert(pieces.take(b) =~= blocks.take(b).map_values(show));
    let models = automaton_models(automatons);
    assert(models == originals + pieces.flatten());
    assert(models.len() == automatons.len());
    assert(models[originals.len() + start + i] == pieces.flatten()[start + i]);
    assert(pieces.flatten().subrange(start as int, start as int + pieces[b].len())[i]
        == pieces[b][i]);
}

/// Whether a declaration is that of a text that stands for an n-gram: it has the range of the
/// n-gram and the words of the text, each of which has its automaton, one behind the other from the
/// declared place on.
pub open spec fn stands_for(
    declaration: Declaration,
    automatons: Seq<QueryWordAutomaton>,
    ngram: Ngram,
    words: Seq<Seq<char>>,
    is_exact: bool,
    phrase_query: Option<(u16, u16)>,
) -> bool {
    &&& declaration.range.start == ngram.range.start
    &&& declaration.range.end == ngram.range.end
    &&& declaration.words@.len() == words.len()
    &&& declaration.real_query_index + words.len() <= automatons.len()
    &&& forall|i: int|
        0 <= i < words.len() ==> {
            let automaton = automatons[declaration.real_query_index + i];
            &&& declaration.words@[i]@ == #[trigger] words[i]
            &&& automaton.query@ == words[i]
            &&& automaton.is_exact == is_exact
            &&& !automaton.is_prefix
            &&& automaton.phrase_query == phrase_query
        }
}

/// A block of automatons that are alike is declared as what stands for its n-gram.
proof fn lemma_block_stands_for(
    originals: Seq<AutomatonModel>,
    blocks: Seq<Block>,
    automatons: Seq<QueryWordAutomaton>,
    declarations: Seq<Declaration>,
    b: int,
    ngram: Ngram,
    words: Seq<Seq<char>>,
    is_exact: bool,
    phrase_query: Option<(u16, u16)>,
)
    requires
        constructed(originals, blocks, automatons, declarations),
        0 <= b < blocks.len(),
        blocks[b].start == ngram@.start,
        blocks[b].end == ngram@.end,
        blocks[b].automatons.len() == words.len(),
        forall|i: int|
            0 <= i < words.len() ==> #[trigger] blocks[b].automatons[i] == word_automaton(
                words[i],
                is_exact,
                false,
                phrase_query,
            ),
    ensures
        stands_for(declarations[b], automatons, ngram, words, is_exact, phrase_query),
{
    let start = block_automatons(blocks.take(b)).len();
    assert(declares(declarations[b], blocks[b], originals.len() + start));
    assert forall|i: int| 0 <= i < words.len() implies {
        let automaton = automatons[declarations[b].real_query_index + i];
        &&& declarations[b].words@[i]@ == #[trigger] words[i]
        &&& automaton.query@ == words[i]
        &&& automaton.is_exact == is_exact
        &&& !automaton.is_prefix
        &&& automaton.phrase_query == phrase_query
    } by {
        lemma_block_automaton(originals, blocks, automatons, declarations, b, i);
        assert(blocks[b].automatons[i] == word_automaton(words[i], is_exact, false, phrase_query));
        assert(declarations[b].words@[i]@ == blocks[b].automatons[i].query);
    }
    if words.len() > 0 {
        lemma_block_automaton(
            originals,
            blocks,
            automatons,
            declarations,
            b,
            words.len() - 1,
        );
    } else {
        let show = |block: Block| block.automatons;
        blocks.lemma_flat_map_take_append(show, b);
        let pieces = blocks.map_values(show);
        lemma_flatten_piece(pieces, b);
        assert(pieces.take(b) =~= blocks.take(b).map_values(show));
        assert(automaton_models(automatons).len() == automatons.len());
    }
}

/// The blocks of an n-gram stand behind each other among all blocks.
proof fn lemma_ngram_blocks(ngrams: Seq<Ngram>, alternatives: Seq<Alternatives>, g: int) -> (b: int)
    requires
        0 <= g < ngrams.len(),
    ensures
        0 <= b,
        b + ngram_blocks(ngrams[g]@, alternatives[g]).len() <= all_blocks(
            ngrams,
            alternatives,
        ).len(),
        forall|k: int|
            0 <= k < ngram_blocks(ngrams[g]@, alternatives[g]).len() ==> all_blocks(
                ngrams,
                alternatives,
            )[b + k] == #[trigger] ngram_blocks(ngrams[g]@, alternatives[g])[k],
{
    let by_ngram = Seq::new(ngrams.len(), |g: int| ngram_blocks(ngrams[g]@, alternatives[g]));
    let blocks = ngram_blocks(ngrams[g]@, alternatives[g]);
    lemma_flatten_piece(by_ngram, g);
    let b = by_ngram.take(g).flatten().len() as int;
    assert(all_blocks(ngrams, alternatives) == by_ngram.flatten());
    assert(by_ngram[g] == blocks);
    assert forall|k: int| 0 <= k < blocks.len() implies all_blocks(ngrams, alternatives)[b + k]
        == #[trigger] blocks[k] by {
        assert(by_ngram.flatten().subrange(b, b + blocks.len())[k] == by_ngram.flatten()[b + k]);
    }
    b
}

/// Each synonym of each n-gram, wherever it stands in the query, is declared and has its
/// automatons, none of them exact.
pub proof fn every_synonym_is_declared(
    originals: Seq<AutomatonModel>,
    ngrams: Seq<Ngram>,
    alternatives: Seq<Alternatives>,
    automatons: Seq<QueryWordAutomaton>,
    declarations: Seq<Declaration>,
    g: int,
    s: int,
) -> (b: int)
    requires
        constructed(originals, all_blocks(ngrams, alternatives), automatons, declarations),
        0 <= g < ngrams.len(),
        0 <= s < alternatives[g].synonyms@.len(),
    ensures
        0 <= b < declarations.len(),
        stands_for(
            declarations[b],
            automatons,
            ngrams[g],
            alternatives[g].synonyms@[s]@.map_values(|word: String| word@),
            false,
            None,
        ),
{
    let blocks = all_blocks(ngrams, alternatives);
    let own = ngram_blocks(ngrams[g]@, alternatives[g]);
    let words = alternatives[g].synonyms@[s]@;
    let b = lemma_ngram_blocks(ngrams, alternatives, g) + s;
    assert(own[s] == synonym_block(ngrams[g]@, words));
    lemma_block_stands_for(
        originals,
        blocks,
        automatons,
        declarations,
        b,
        ngrams[g],
        words.map_values(|word: String| word@),
        false,
        None,
    );
    b
}

/// The split of each n-gram of one word, wherever it stands in the query, is declared, part by
/// part, and has exact automatons behind each other: those of a phrase of two words.
pub proof fn every_split_is_declared(
    originals: Seq<AutomatonModel>,
    ngrams: Seq<Ngram>,
    alternatives: Seq<Alternatives>,
    automatons: Seq<QueryWordAutomaton>,
    declarations: Seq<Declaration>,
    g: int,
    left: String,
    right: String,
) -> (b: int)
    requires
        constructed(originals, all_blocks(ngrams, alternatives), automatons, declarations),
        0 <= g < ngrams.len(),
        ngrams[g].range.end - ngrams[g].range.start == 1,
        alternatives[g].split == Some((left, right)),
    ensures
        0 <= b < declarations.len() - 1,
        stands_for(declarations[b], automatons, ngrams[g], seq![left@], true, Some((0, 2))),
        stands_for(declarations[b + 1], automatons, ngrams[g], seq![right@], true, Some((1, 2))),
        declarations[b + 1].real_query_index == declarations[b].real_query_index + 1,
{
    let blocks = all_blocks(ngrams, alternatives);
    let own = ngram_blocks(ngrams[g]@, alternatives[g]);
    let n = alternatives[g].synonyms@.len() as int;
    let b = lemma_ngram_blocks(ngrams, alternatives, g) + n;
    let parts = spelling_blocks(ngrams[g]@, alternatives[g]);
    assert(own[n] == parts[0]);
    assert(own[n + 1] == parts[1]);
    assert(blocks[b] == single_block(ngrams[g]@, left@, Some((0, 2))));
    assert(blocks[b + 1] == single_block(ngrams[g]@, right@, Some((1, 2))));
    lemma_block_stands_for(
        originals,
        blocks,
        automatons,
        declarations,
        b,
        ngrams[g],
        seq![left@],
        true,
        Some((0, 2)),
    );
    lemma_block_stands_for(
        originals,
        blocks,
        automatons,
        declarations,
        b + 1,
        ngrams[g],
        seq![right@],
        true,
        Some((1, 2)),
    );
    declarations_leave_no_gap(originals, blocks, automatons, declarations, b);
    b
}

/// The concatenation of each n-gram of several words, wherever it stands in the query, is declared
/// and has its exact automaton.
pub proof fn every_concatenation_is_declared(
    originals: Seq<AutomatonModel>,
    ngrams: Seq<Ngram>,
    alternatives: Seq<Alternatives>,
    automatons: Seq<QueryWordAutomaton>,
    declarations: Seq<Declaration>,
    g: int,
) -> (b: int)
    requires
        constructed(originals, all_blocks(ngrams, alternatives), automatons, declarations),
        0 <= g < ngrams.len(),
        ngrams[g].range.end - ngrams[g].range.start > 1,
    ensures
        0 <= b < declarations.len(),
        stands_for(
            declarations[b],
            automatons,
            ngrams[g],
            seq![alternatives[g].concatenation@],
            true,
            None,
        ),
{
    let blocks = all_blocks(ngrams, alternatives);
    let own = ngram_blocks(ngrams[g]@, alternatives[g]);
    let n = alternatives[g].synonyms@.len() as int;
    let b = lemma_ngram_blocks(ngrams, alternatives, g) + n;
    assert(own[n] == spelling_blocks(ngrams[g]@, alternatives[g])[0]);
    lemma_block_stands_for(
        originals,
        blocks,
        automatons,
        declarations,
        b,
        ngrams[g],
        seq![alternatives[g].concatenation@],
        true,
        None,
    );
    b
}

/// One more n-gram leaves what was there, and adds behind it a declaration for each of its
/// synonyms, then one for each part of its split if it has one word, or one for its concatenation
/// if it has not; and nothing else.
pub proof fn one_more_ngram_adds_its_alternatives(
    originals: Seq<AutomatonModel>,
    ngrams: Seq<Ngram>,
    alternatives: Seq<Alternatives>,
    ngram: Ngram,
    alternative: Alternatives,
    automatons: Seq<QueryWordAutomaton>,
    declarations: Seq<Declaration>,
    more_automatons: Seq<QueryWordAutomaton>,
    more_declarations: Seq<Declaration>,
)
    requires
        alternatives.len() == ngrams.len(),
        constructed(originals, all_blocks(ngrams, alternatives), automatons, declarations),
        constructed(
            originals,
            all_blocks(ngrams.push(ngram), alternatives.push(alternative)),
            more_automatons,
            more_declarations,
        ),
    ensures
        automatons.len() <= more_automatons.len(),
        forall|i: int|
            0 <= i < automatons.len() ==> (#[trigger] more_automatons[i])@ == automatons[i]@,
        more_declarations.len() == declarations.len() + alternative.synonyms@.len() + if (
        ngram.range.end - ngram.range.start != 1) {
            1int
        } else if alternative.split is Some {
            2
        } else {
            0
        },
        forall|b: int|
            0 <= b < declarations.len() ==> {
                &&& (#[trigger] more_declarations[b]).range.start == declarations[b].range.start
                &&& more_declarations[b].range.end == declarations[b].range.end
                &&& more_declarations[b].real_query_index == declarations[b].real_query_index
                &&& more_declarations[b].words@.map_values(|word: String| word@)
                    == declarations[b].words@.map_values(|word: String| word@)
            },
        more_declarations.len() > declarations.len() ==> (
        more_declarations[declarations.len() as int]).real_query_index == automatons.len(),
        forall|s: int|
            0 <= s < alternative.synonyms@.len() ==> stands_for(
                more_declarations[declarations.len() + s],
                more_automatons,
                ngram,
                (#[trigger] alternative.synonyms@[s])@.map_values(|word: String| word@),
                false,
                None,
            ),
        ({
            let n = (declarations.len() + alternative.synonyms@.len()) as int;
            if ngram.range.end - ngram.range.start != 1 {
                stands_for(
                    more_declarations[n],
                    more_automatons,
                    ngram,
                    seq![alternative.concatenation@],
                    true,
                    None,
                )
            } else {
                match alternative.split {
                    Some((left, right)) => stands_for(
                        more_declarations[n],
                        more_automatons,
                        ngram,
                        seq![left@],
                        true,
                        Some((0, 2)),
                    ) && stands_for(
                        more_declarations[n + 1],
                        more_automatons,
                        ngram,
                        seq![right@],
                        true,
                        Some((1, 2)),
                    ),
                    None => true,
                }
            }
        }),
{
    let (longer, more) = (ngrams.push(ngram), alternatives.push(alternative));
    let (before, after) = (all_blocks(ngrams, alternatives), all_blocks(longer, more));
    let own = ngram_blocks(ngram@, alternative);
    let g = ngrams.len() as int;
    let short = Seq::new(ngrams.len(), |g: int| ngram_blocks(ngrams[g]@, alternatives[g]));
    let long = Seq::new(longer.len(), |g: int| ngram_blocks(longer[g]@, more[g]));
    assert(long =~= short.push(own)) by {
        assert forall|k: int| 0 <= k < short.len() implies #[trigger] long[k] == short[k] by {
            assert(longer[k] == ngrams[k] && more[k] == alternatives[k]);
        }
    }
    short.lemma_flatten_push(own);
    assert(after == before + own);
    let d = declarations.len() as int;
    let n = alternative.synonyms@.len() as int;
    let show = |block: Block| block.automatons;
    assert(after.map_values(show) =~= before.map_values(show) + own.map_values(show));
    vstd::seq_lib::lemma_flatten_concat(before.map_values(show), own.map_values(show));
    let (models, more_models) = (automaton_models(automatons), automaton_models(more_automatons));
    assert(more_models =~= models + block_automatons(own));
    assert(models.len() == automatons.len());
    assert(more_models.len() == more_automatons.len());
    assert forall|i: int| 0 <= i < automatons.len() implies (#[trigger] more_automatons[i])@
        == automatons[i]@ by {
        assert(more_models[i] == models[i]);
    }
    assert forall|b: int| 0 <= b < d implies {
        &&& (#[trigger] more_declarations[b]).range.start == declarations[b].range.start
        &&& more_declarations[b].range.end == declarations[b].range.end
        &&& more_declarations[b].real_query_index == declarations[b].real_query_index
        &&& more_declarations[b].words@.map_values(|word: String| word@)
            == declarations[b].words@.map_values(|word: String| word@)
    } by {
        assert(after[b] == before[b]);
        assert(after.take(b) =~= before.take(b));
        let place = originals.len() + block_automatons(before.take(b)).len();
        assert(declares(declarations[b], before[b], place));
        assert(declares(more_declarations[b], after[b], place));
        assert(more_declarations[b].words@.map_values(|word: String| word@)
            =~= declarations[b].words@.map_values(|word: String| word@));
    }
    if more_declarations.len() > d {
        assert(after.take(d) =~= before);
        assert(declares(
            more_declarations[d],
            after[d],
            originals.len() + block_automatons(after.take(d)).len(),
        ));
    }
    assert forall|s: int| 0 <= s < n implies stands_for(
        more_declarations[d + s],
        more_automatons,
        ngram,
        (#[trigger] alternative.synonyms@[s])@.map_values(|word: String| word@),
        false,
        None,
    ) by {
        let words = alternative.synonyms@[s]@;
        assert(after[d + s] == own[s]);
        assert(own[s] == synonym_block(ngram@, words));
        lemma_block_stands_for(
            originals,
            after,
            more_automatons,
            more_declarations,
            d + s,
            ngram,
            words.map_values(|word: String| word@),
            false,
            None,
        );
    }
    let parts = spelling_blocks(ngram@, alternative);
    assert(own.len() == n + parts.len());
    if parts.len() > 0 {
        assert(after[d + n] == parts[0]);
        if ngram@.end - ngram@.start != 1 {
            lemma_block_stands_for(
                originals,
                after,
                more_automatons,
                more_declarations,
                d + n,
                ngram,
                seq![alternative.concatenation@],
                true,
                None,
            );
        } else {
            let (left, right) = alternative.split->0;
            assert(after[d + n + 1] == parts[1]);
            lemma_block_stands_for(
                originals,
                after,
                more_automatons,
                more_declarations,
                d + n,
                ngram,
                seq![left@],
                true,
                Some((0, 2)),
            );
            lemma_block_stands_for(
                originals,
                after,
                more_automatons,
                more_declarations,
                d + n + 1,
                ngram,
                seq![right@],
                true,
                Some((1, 2)),
            );
        }
    }
}

/// The words of the query have exact automatons, each at its place, none of them of a phrase. The
/// last one is a prefix just if no white space follows it and one of its letters is not Chinese,
/// Japanese or Korean. Without n-grams there is nothing else.
pub proof fn words_have_their_automatons<F: Fn(char) -> bool>(
    words: Seq<String>,
    end_whitespace: bool,
    is_cjk: F,
    blocks: Seq<Block>,
    automatons: Seq<QueryWordAutomaton>,
    declarations: Seq<Declaration>,
)
    requires
        constructed(
            original_automatons(words, end_whitespace, is_cjk),
            blocks,
            automatons,
            declarations,
        ),
    ensures
        words.len() <= automatons.len(),
        forall|i: int|
            0 <= i < words.len() ==> {
                &&& (#[trigger] automatons[i]).query@ == words[i]@
                &&& automatons[i].is_exact
                &&& automatons[i].phrase_query is None
                &&& automatons[i].is_prefix <==> i + 1 == words.len() && !end_whitespace && exists|
                    k: int,
                |
                    0 <= k < words[i]@.len() && !call_ensures(
                        is_cjk,
                        (#[trigger] words[i]@[k],),
                        true,
                    )
            },
        all_blocks(Seq::empty(), Seq::empty()) == Seq::<Block>::empty(),
        blocks.len() == 0 ==> automatons.len() == words.len() && declarations.len() == 0,
{
    let originals = original_automatons(words, end_whitespace, is_cjk);
    let models = automaton_models(automatons);
    assert(models.len() == automatons.len());
    assert forall|i: int| 0 <= i < words.len() implies (#[trigger] automatons[i])@
        == originals[i] by {
        assert(models[i] == originals[i]);
    }
    let none = Seq::new(
        0,
        |g: int| ngram_blocks(Seq::<Ngram>::empty()[g]@, Seq::<Alternatives>::empty()[g]),
    );
    assert(none =~= Seq::empty());
    assert(all_blocks(Seq::empty(), Seq::empty()) =~= Seq::<Block>::empty());
    if blocks.len() == 0 {
        assert(blocks.map_values(|block: Block| block.automatons) =~= Seq::empty());
        assert(block_automatons(blocks) =~= Seq::empty());
    }
}

} // verus!
