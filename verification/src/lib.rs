//! Matching and ranking of search results.
//!
//! The words of a query become automatons ([`construct`]) that are looked up in a set of words
//! ([`fetch`]). The postings lists that they find make matches, which are gathered document by
//! document ([`candidates`]) and ranked by criteria ([`ranking`]).

pub mod arena;
pub mod automaton;
pub mod candidates;
pub mod construct;
pub mod criterion;
pub mod documents;
pub mod fetch;
pub mod grouping;
pub mod postings;
pub mod query;
pub mod ranking;
pub mod split;
pub mod typos;
pub mod words;

pub use automaton::QueryWordAutomaton;
pub use criterion::Criterion;
pub use documents::{BareMatch, DocIndex, DocumentId, RawDocument, SimpleMatch};
pub use postings::PostingsListView;
pub use ranking::bucket_sort;
