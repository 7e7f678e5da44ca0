//! The documents of a search and the matches that led to them.

use vstd::prelude::*;

use crate::postings::{PostingsListView, PostingsModel};

verus! {

/// The identifier of a document.
pub type DocumentId = u64;

/// The position of a word in a document.
#[derive(Debug, Clone, Copy, PartialEq, Eq, PartialOrd, Ord, Structural)]
pub struct DocIndex {
    /// The document in which the word was found.
    pub document_id: DocumentId,
    /// The attribute of the document in which the word was found.
    pub attribute: u16,
    /// The position of the word in the attribute.
    pub word_index: u16,
    /// The character position of the word in the attribute.
    pub char_index: u16,
    /// The number of characters of the word.
    pub char_length: u16,
}

/// What a word of the query found in one document.
///
/// `P` is how the positions are held: a postings list, or the place
/// of one in an arena.
pub struct BareMatch<P> {
    pub document_id: DocumentId,
    pub query_index: usize,
    pub distance: u8,
    pub is_exact: bool,
    pub postings_list: P,
}

/// One position at which a word of the query was found.
#[derive(Debug, Clone, Copy, PartialEq, Eq, PartialOrd, Ord)]
pub struct SimpleMatch {
    pub query_index: usize,
    pub distance: u8,
    pub attribute: u16,
    pub word_index: u16,
    pub is_exact: bool,
}

/// A document that the search found, with what its ranking needs.
pub struct RawDocument<M> {
    pub id: DocumentId,
    pub matches: M,
}

/// Documents in their order, as contracts speak of them.
pub type DocumentSeq<M> = Seq<RawDocument<M>>;

/// The identifiers of a sequence of documents.
pub open spec fn ids<M>(documents: Seq<RawDocument<M>>) -> Seq<DocumentId> {
    documents.map_values(|document: RawDocument<M>| document.id)
}

/// Whether a document is one of these, but for what it holds, which `carried` relates.
pub open spec fn comes_from<M>(
    document: RawDocument<M>,
    documents: DocumentSeq<M>,
    carried: spec_fn(M, M) -> bool,
) -> bool {
    exists|k: int|
        0 <= k < documents.len() && (#[trigger] documents[k]).id == document.id && carried(
            documents[k].matches,
            document.matches,
        )
}

/// What a match shows: what was found, and the positions at which it was.
pub struct MatchModel {
    pub document_id: DocumentId,
    pub query_index: usize,
    pub distance: u8,
    pub is_exact: bool,
    pub postings: PostingsModel,
}

impl<'txn> View for BareMatch<PostingsListView<'txn>> {
    type V = MatchModel;

    open spec fn view(&self) -> MatchModel {
        MatchModel {
            document_id: self.document_id,
            query_index: self.query_index,
            distance: self.distance,
            is_exact: self.is_exact,
            postings: self.postings_list@,
        }
    }
}

/// What each of several matches shows.
pub open spec fn match_models(matches: Seq<BareMatch<PostingsListView<'_>>>) -> Seq<MatchModel> {
    matches.map_values(|bare_match: BareMatch<PostingsListView<'_>>| bare_match@)
}

} // verus!
