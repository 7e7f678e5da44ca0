//! The words of a query as they are looked up.

use levenshtein_automata::DFA;
use vstd::prelude::*;
use vstd::utf8::{encode_utf8, valid_utf8};

use crate::typos::{
    accepted, measures, measures_prefixes, near, near_prefix, TypoTolerance,
};

verus! {

#[derive(Debug)]
pub struct QueryWordAutomaton {
    pub query: String,
    /// Is it a word that must be considered exact
    /// or is it some derived word (i.e. a synonym)
    pub is_exact: bool,
    pub is_prefix: bool,
    /// If it's a phrase query and what is
    /// its index an the length of the phrase
    pub phrase_query: Option<(u16, u16)>,
}

/// What a [`QueryWordAutomaton`] shows.
pub struct AutomatonModel {
    pub query: Seq<char>,
    pub is_exact: bool,
    pub is_prefix: bool,
    pub phrase_query: Option<(u16, u16)>,
}

impl View for QueryWordAutomaton {
    type V = AutomatonModel;

    open spec fn view(&self) -> AutomatonModel {
        AutomatonModel {
            query: self.query@,
            is_exact: self.is_exact,
            is_prefix: self.is_prefix,
            phrase_query: self.phrase_query,
        }
    }
}

/// What each of several automatons shows.
pub open spec fn automaton_models(automatons: Seq<QueryWordAutomaton>) -> Seq<AutomatonModel> {
    automatons.map_values(|automaton: QueryWordAutomaton| automaton@)
}

impl QueryWordAutomaton {
    /// The texts that the word is looked up as, each with its number of typos: a word of a phrase
    /// without typos, others with typos, and a prefix as the start of a text.
    pub open spec fn texts(self, tolerance: TypoTolerance) -> Map<Seq<u8>, u8> {
        if self.phrase_query is Some {
            near(self.typos(tolerance), tolerance.transposition(), self.query@)
        } else if self.is_prefix {
            near_prefix(self.typos(tolerance), tolerance.transposition(), self.query@)
        } else {
            near(self.typos(tolerance), tolerance.transposition(), self.query@)
        }
    }

    /// The number of typos with which the word is looked up.
    pub open spec fn typos(self, tolerance: TypoTolerance) -> u8 {
        if self.phrase_query is Some {
            0
        } else {
            tolerance.max()
        }
    }

    /// Whether the texts that the word is looked up as are as near to it as their numbers of typos
    /// say.
    pub open spec fn measured(self, tolerance: TypoTolerance) -> bool {
        if self.phrase_query is None && self.is_prefix {
            measures_prefixes(
                self.texts(tolerance),
                self.typos(tolerance),
                tolerance.transposition(),
                self.query@,
            )
        } else {
            measures(
                self.texts(tolerance),
                self.typos(tolerance),
                tolerance.transposition(),
                self.query@,
            )
        }
    }

    /// Whether a text is the word without typos, or starts with it where the word is a prefix.
    pub open spec fn spelled(self, text: Seq<u8>) -> bool {
        if self.phrase_query is None && self.is_prefix {
            encode_utf8(self.query@).is_prefix_of(text)
        } else {
            text == encode_utf8(self.query@)
        }
    }

    pub fn exact(query: &str) -> (automaton: QueryWordAutomaton)
        ensures
            automaton.query@ == query@,
            automaton.is_exact,
            !automaton.is_prefix,
            automaton.phrase_query is None,
    {
        QueryWordAutomaton {
            query: query.to_string(),
            is_exact: true,
            is_prefix: false,
            phrase_query: None,
        }
    }

    pub fn exact_prefix(query: &str) -> (automaton: QueryWordAutomaton)
        ensures
            automaton.query@ == query@,
            automaton.is_exact,
            automaton.is_prefix,
            automaton.phrase_query is None,
    {
        QueryWordAutomaton {
            query: query.to_string(),
            is_exact: true,
            is_prefix: true,
            phrase_query: None,
        }
    }

    pub fn non_exact(query: &str) -> (automaton: QueryWordAutomaton)
        ensures
            automaton.query@ == query@,
            !automaton.is_exact,
            !automaton.is_prefix,
            automaton.phrase_query is None,
    {
        QueryWordAutomaton {
            query: query.to_string(),
            is_exact: false,
            is_prefix: false,
            phrase_query: None,
        }
    }

    /// The automaton that accepts the texts that the word is looked up as.
    pub fn dfa(&self, tolerance: &TypoTolerance) -> (dfa: DFA)
        ensures
            accepted(&dfa) == self.texts(*tolerance),
            forall|text: Seq<u8>| #[trigger]
                accepted(&dfa).dom().contains(text) ==> accepted(&dfa)[text] <= self.typos(
                    *tolerance,
                ),
            forall|text: Seq<u8>|
                valid_utf8(text) ==> ((#[trigger] accepted(&dfa).dom().contains(text)
                    && accepted(&dfa)[text] == 0) <==> self.spelled(text)),
            self.measured(*tolerance),
            self.phrase_query is Some ==> accepted(&dfa) == near(
                0,
                tolerance.transposition(),
                self.query@,
            ),
            self.phrase_query is None && self.is_prefix ==> accepted(&dfa) == near_prefix(
                tolerance.max(),
                tolerance.transposition(),
                self.query@,
            ),
            self.phrase_query is None && !self.is_prefix ==> accepted(&dfa) == near(
                tolerance.max(),
                tolerance.transposition(),
                self.query@,
            ),
    {
        if self.phrase_query.is_some() {
            tolerance.build_exact_dfa(&self.query)
        } else if self.is_prefix {
            tolerance.build_prefix_dfa(&self.query)
        } else {
            tolerance.build_dfa(&self.query)
        }
    }
}

/// A word of a phrase is looked up as the texts that are it without typos, a prefix as those that
/// start about like it, and other words as those near to them.
pub proof fn texts_of_each_kind_of_word(automaton: QueryWordAutomaton, tolerance: TypoTolerance)
    ensures
        automaton.phrase_query is Some ==> automaton.texts(tolerance) == near(
            0,
            tolerance.transposition(),
            automaton.query@,
        ),
        automaton.phrase_query is None && automaton.is_prefix ==> automaton.texts(tolerance)
            == near_prefix(tolerance.max(), tolerance.transposition(), automaton.query@),
        automaton.phrase_query is None && !automaton.is_prefix ==> automaton.texts(tolerance)
            == near(tolerance.max(), tolerance.transposition(), automaton.query@),
        automaton.spelled(encode_utf8(automaton.query@)),
        forall|text: Seq<u8>| #[trigger]
            automaton.spelled(text) && (automaton.phrase_query is Some || !automaton.is_prefix)
                ==> text == encode_utf8(automaton.query@),
        forall|rest: Seq<u8>|
            automaton.phrase_query is None && automaton.is_prefix ==> automaton.spelled(
                #[trigger] (encode_utf8(automaton.query@) + rest),
            ),
{
}

} // verus!
