# bucket_sort

Matching and ranking of search results, verified with Verus.

- `src/query.rs`, `src/split.rs` and `src/construct.rs` turn a query into automatons: those of its
  words, and those of the synonyms, splits and concatenations that may stand for them.
- `src/typos.rs`, `src/automaton.rs` and `src/words.rs` recognise words up to typos and search sets
  of words for them.
- `src/fetch.rs` says which postings lists a word asks for, and makes matches of those that were
  fetched.
- `src/postings.rs` and `src/arena.rs` hold postings lists, and `src/grouping.rs` cuts them by
  document.
- `src/candidates.rs` collects the matches of a search and gathers them document by document.
- `src/criterion.rs` and `src/ranking.rs` rank documents criterion after criterion, as far as the
  requested range needs it.
- `app/` reads the stores and runs a search.

The contracts of what the library calls in other crates stand beside the functions that make the
calls. They are believed, not proved.
