//! Automata that recognise words up to some number of typos.

use levenshtein_automata::{LevenshteinAutomatonBuilder, DFA};
use vstd::prelude::*;
use vstd::utf8::{decode_utf8, encode_utf8, valid_utf8};

verus! {

/// `levenshtein_automata::DFA`, an automaton that reads bytes.
#[verifier::external_type_specification]
#[verifier::external_body]
pub struct ExDFA(DFA);

/// `levenshtein_automata::LevenshteinAutomatonBuilder`, a builder of automata.
#[verifier::external_type_specification]
#[verifier::external_body]
pub struct ExLevenshteinAutomatonBuilder(LevenshteinAutomatonBuilder);

/// The texts that an automaton accepts, each with its distance to the word of the automaton.
pub uninterp spec fn accepted(dfa: &DFA) -> Map<Seq<u8>, u8>;

/// The greatest distance that the automata of a builder accept, and whether two letters that
/// changed places count as one typo.
pub uninterp spec fn tolerated(builder: &LevenshteinAutomatonBuilder) -> (u8, bool);

/// The texts within a Levenshtein distance of a word, each with that distance.
pub uninterp spec fn near(max_distance: u8, transposition_cost_one: bool, word: Seq<char>) -> Map<
    Seq<u8>,
    u8,
>;

/// The texts that start about like a word: those that the automaton of the word as a prefix
/// accepts, each with the distance that it gives. That is the distance of some prefix of the text,
/// not always of the nearest one: with two typos, the automaton of `aab` accepts `b`, at
/// distance 2, but not `bx`.
pub uninterp spec fn near_prefix(
    max_distance: u8,
    transposition_cost_one: bool,
    word: Seq<char>,
) -> Map<Seq<u8>, u8>;

/// The Levenshtein distance of two texts: the least number of characters to insert, delete or
/// replace to turn one into the other.
pub open spec fn levenshtein(a: Seq<char>, b: Seq<char>) -> nat
    decreases a.len() + b.len(),
{
    if a.len() == 0 {
        b.len()
    } else if b.len() == 0 {
        a.len()
    } else {
        let deleted = levenshtein(a.drop_last(), b) + 1;
        let inserted = levenshtein(a, b.drop_last()) + 1;
        let kept = levenshtein(a.drop_last(), b.drop_last());
        let replaced = if a.last() == b.last() {
            kept
        } else {
            kept + 1
        };
        if deleted <= inserted && deleted <= replaced {
            deleted
        } else if inserted <= replaced {
            inserted
        } else {
            replaced
        }
    }
}

/// Whether texts at this Levenshtein distance can count as `distance` typos: just as many, but
/// where two letters that changed places count as one typo each typo may take two steps.
pub open spec fn counts_as(levenshtein: nat, distance: u8, transposition_cost_one: bool) -> bool {
    if transposition_cost_one {
        distance <= levenshtein <= 2 * distance
    } else {
        levenshtein == distance
    }
}

/// Whether a map holds the UTF-8 texts within a Levenshtein distance of a word, with their numbers
/// of typos. Where two letters that changed places count as one typo, it may hold farther texts.
pub open spec fn measures(
    distances: Map<Seq<u8>, u8>,
    max_distance: u8,
    transposition_cost_one: bool,
    word: Seq<char>,
) -> bool {
    forall|text: Seq<u8>|
        #![trigger distances.dom().contains(text)]
        valid_utf8(text) ==> {
            let levenshtein = levenshtein(word, decode_utf8(text));
            &&& levenshtein <= max_distance ==> distances.dom().contains(text)
            &&& distances.dom().contains(text) ==> distances[text] <= max_distance && counts_as(
                levenshtein,
                distances[text],
                transposition_cost_one,
            )
        }
}

/// Whether each UTF-8 text of a map has a prefix with as many typos as the map says.
pub open spec fn measures_prefixes(
    distances: Map<Seq<u8>, u8>,
    max_distance: u8,
    transposition_cost_one: bool,
    word: Seq<char>,
) -> bool {
    forall|text: Seq<u8>|
        #![trigger distances.dom().contains(text)]
        valid_utf8(text) && distances.dom().contains(text) ==> distances[text] <= max_distance
            && exists|k: int|
            0 <= k <= decode_utf8(text).len() && counts_as(
                #[trigger] levenshtein(word, decode_utf8(text).take(k)),
                distances[text],
                transposition_cost_one,
            )
}

/// `levenshtein_automata::LevenshteinAutomatonBuilder::new`: a builder of automata that accept
/// texts up to this distance.
pub assume_specification[ LevenshteinAutomatonBuilder::new ](
    max_distance: u8,
    transposition_cost_one: bool,
) -> (builder: LevenshteinAutomatonBuilder)
    requires
        max_distance <= 5,
    ensures
        tolerated(&builder) == (max_distance, transposition_cost_one),
;

/// `levenshtein_automata::LevenshteinAutomatonBuilder::build_dfa`: an automaton that accepts the
/// texts within the distance of the builder. Of UTF-8 texts, the word alone is at distance 0. The
/// distance is the Levenshtein distance, but where transpositions count as one typo it may be less,
/// down to half of it.
pub assume_specification[ LevenshteinAutomatonBuilder::build_dfa ](
    builder: &LevenshteinAutomatonBuilder,
    query: &str,
) -> (dfa: DFA)
    ensures
        accepted(&dfa) == near(tolerated(builder).0, tolerated(builder).1, query@),
        forall|text: Seq<u8>| #[trigger]
            accepted(&dfa).dom().contains(text) ==> accepted(&dfa)[text] <= tolerated(builder).0,
        forall|text: Seq<u8>|
            valid_utf8(text) ==> ((#[trigger] accepted(&dfa).dom().contains(text)
                && accepted(&dfa)[text] == 0) <==> text == encode_utf8(query@)),
        measures(accepted(&dfa), tolerated(builder).0, tolerated(builder).1, query@),
;

/// `levenshtein_automata::LevenshteinAutomatonBuilder::build_prefix_dfa`: an automaton that accepts
/// texts with a prefix within the distance of the builder, not always all of them. Of UTF-8 texts,
/// just those that start with the word are at distance 0, and the distance is that of some prefix.
pub assume_specification[ LevenshteinAutomatonBuilder::build_prefix_dfa ](
    builder: &LevenshteinAutomatonBuilder,
    query: &str,
) -> (dfa: DFA)
    ensures
        accepted(&dfa) == near_prefix(tolerated(builder).0, tolerated(builder).1, query@),
        forall|text: Seq<u8>| #[trigger]
            accepted(&dfa).dom().contains(text) ==> accepted(&dfa)[text] <= tolerated(builder).0,
        forall|text: Seq<u8>|
            valid_utf8(text) ==> ((#[trigger] accepted(&dfa).dom().contains(text)
                && accepted(&dfa)[text] == 0) <==> encode_utf8(query@).is_prefix_of(text)),
        measures_prefixes(accepted(&dfa), tolerated(builder).0, tolerated(builder).1, query@),
;

/// Calls `levenshtein_automata::DFA::eval`, and `levenshtein_automata::Distance::to_u8` on what it
/// returns: the distance of a text that the automaton accepts.
#[verifier::external_body]
pub(crate) fn dfa_distance(dfa: &DFA, text: &[u8]) -> (distance: u8)
    requires
        accepted(dfa).dom().contains(text@),
    ensures
        distance == accepted(dfa)[text@],
{
    dfa.eval(text).to_u8()
}

/// Builds the automata of words, with typos and without.
pub struct TypoTolerance {
    max_distance: u8,
    transposition_cost_one: bool,
    exact: LevenshteinAutomatonBuilder,
    tolerant: LevenshteinAutomatonBuilder,
}

impl TypoTolerance {
    /// The builders are those of the two distances.
    #[verifier::type_invariant]
    closed spec fn builds(self) -> bool {
        &&& tolerated(&self.exact) == (0u8, self.transposition_cost_one)
        &&& tolerated(&self.tolerant) == (self.max_distance, self.transposition_cost_one)
    }

    /// The number of typos that are tolerated.
    pub closed spec fn max(self) -> u8 {
        self.max_distance
    }

    /// Whether two letters that changed places count as one typo.
    pub closed spec fn transposition(self) -> bool {
        self.transposition_cost_one
    }

    /// Tolerates up to `max_distance` typos.
    pub fn new(max_distance: u8, transposition_cost_one: bool) -> (tolerance: TypoTolerance)
        requires
            max_distance <= 5,
        ensures
            tolerance.max() == max_distance,
            tolerance.transposition() == transposition_cost_one,
    {
        TypoTolerance {
            max_distance,
            transposition_cost_one,
            exact: LevenshteinAutomatonBuilder::new(0, transposition_cost_one),
            tolerant: LevenshteinAutomatonBuilder::new(max_distance, transposition_cost_one),
        }
    }

    /// An automaton that accepts the word with typos.
    pub fn build_dfa(&self, query: &str) -> (dfa: DFA)
        ensures
            accepted(&dfa) == near(self.max(), self.transposition(), query@),
            forall|text: Seq<u8>| #[trigger]
                accepted(&dfa).dom().contains(text) ==> accepted(&dfa)[text] <= self.max(),
            forall|text: Seq<u8>|
                valid_utf8(text) ==> ((#[trigger] accepted(&dfa).dom().contains(text)
                    && accepted(&dfa)[text] == 0) <==> text == encode_utf8(query@)),
            measures(accepted(&dfa), self.max(), self.transposition(), query@),
    {
        proof {
            use_type_invariant(self);
        }
        self.tolerant.build_dfa(query)
    }

    /// An automaton that accepts the texts that start with the word, with typos.
    pub fn build_prefix_dfa(&self, query: &str) -> (dfa: DFA)
        ensures
            accepted(&dfa) == near_prefix(self.max(), self.transposition(), query@),
            forall|text: Seq<u8>| #[trigger]
                accepted(&dfa).dom().contains(text) ==> accepted(&dfa)[text] <= self.max(),
            forall|text: Seq<u8>|
                valid_utf8(text) ==> ((#[trigger] accepted(&dfa).dom().contains(text)
                    && accepted(&dfa)[text] == 0) <==> encode_utf8(query@).is_prefix_of(text)),
            measures_prefixes(accepted(&dfa), self.max(), self.transposition(), query@),
    {
        proof {
            use_type_invariant(self);
        }
        self.tolerant.build_prefix_dfa(query)
    }

    /// An automaton that accepts the word without typos: of UTF-8 texts, the word alone.
    pub fn build_exact_dfa(&self, query: &str) -> (dfa: DFA)
        ensures
            accepted(&dfa) == near(0, self.transposition(), query@),
            forall|text: Seq<u8>| #[trigger]
                accepted(&dfa).dom().contains(text) ==> accepted(&dfa)[text] == 0,
            forall|text: Seq<u8>|
                valid_utf8(text) ==> (#[trigger] accepted(&dfa).dom().contains(text) <==> text
                    == encode_utf8(query@)),
            measures(accepted(&dfa), 0, self.transposition(), query@),
    {
        proof {
            use_type_invariant(self);
        }
        self.exact.build_dfa(query)
    }
}

} // verus!
