//! The candidates of a search: the documents that the query found, each with its matches.

use std::borrow::Cow;
use std::rc::Rc;

use sdset::Set as SdSet;
use vstd::prelude::*;

use crate::documents::{ids, match_models, BareMatch, DocIndex, DocumentId, MatchModel, RawDocument};
use crate::grouping::{
    binary_document_groups, contents, document_group_lens, index_document, is_sorted_by_document,
    lemma_flatten_origin, lemma_flatten_piece, lemma_runs, lemma_runs_increasing, lemma_same_items,
    match_document, runs, sorted_by_document,
};
use crate::postings::{cow_as_set, cow_items, set_as_slice, PostingsListView, PostingsModel};

verus! {

/// What one word of the query found.
pub struct QueryMatches<'txn> {
    /// The position of the word in the query.
    pub query_index: usize,
    /// The word that was found.
    pub input: Rc<[u8]>,
    /// The number of typos between the two.
    pub distance: u8,
    /// Where the word that was found stands.
    pub matches: Rc<Cow<'txn, SdSet<DocIndex>>>,
}

/// The match that consecutive positions in one document make.
pub open spec fn document_match(
    input: Seq<u8>,
    query_index: usize,
    distance: u8,
    is_exact: bool,
    indexes: Seq<DocIndex>,
) -> MatchModel {
    MatchModel {
        document_id: indexes[0].document_id,
        query_index,
        distance,
        is_exact,
        postings: PostingsModel { input, indexes, rewritten: false },
    }
}

/// The matches of a postings list, one for each group of consecutive positions in a document
/// that is kept.
pub open spec fn list_matches(
    input: Seq<u8>,
    query_index: usize,
    distance: u8,
    is_exact: bool,
    indexes: Seq<DocIndex>,
    kept: spec_fn(DocumentId) -> bool,
) -> Seq<MatchModel> {
    group_matches(input, query_index, distance, is_exact, runs(indexes, index_document()), kept)
}

/// The matches of groups of positions, one for each group in a document that is kept.
pub open spec fn group_matches(
    input: Seq<u8>,
    query_index: usize,
    distance: u8,
    is_exact: bool,
    groups: Seq<Seq<DocIndex>>,
    kept: spec_fn(DocumentId) -> bool,
) -> Seq<MatchModel> {
    groups.filter(|group: Seq<DocIndex>| kept(group[0].document_id)).map_values(
        |group: Seq<DocIndex>| document_match(input, query_index, distance, is_exact, group),
    )
}

/// One more group adds its match, if its document is kept.
pub proof fn lemma_group_matches_step(
    input: Seq<u8>,
    query_index: usize,
    distance: u8,
    is_exact: bool,
    groups: Seq<Seq<DocIndex>>,
    kept: spec_fn(DocumentId) -> bool,
    g: int,
)
    requires
        0 <= g < groups.len(),
    ensures
        group_matches(input, query_index, distance, is_exact, groups.take(g + 1), kept) == if kept(
            groups[g][0].document_id,
        ) {
            group_matches(input, query_index, distance, is_exact, groups.take(g), kept).push(
                document_match(input, query_index, distance, is_exact, groups[g]),
            )
        } else {
            group_matches(input, query_index, distance, is_exact, groups.take(g), kept)
        },
{
    let keep = |group: Seq<DocIndex>| kept(group[0].document_id);
    let show = |group: Seq<DocIndex>|
        document_match(input, query_index, distance, is_exact, group);
    assert(groups.take(g + 1) =~= groups.take(g).push(groups[g]));
    groups.take(g).lemma_filter_push(groups[g], keep);
    let filtered = groups.take(g).filter(keep);
    assert(filtered.push(groups[g]).map_values(show) =~= filtered.map_values(show).push(
        show(groups[g]),
    ));
}

/// The documents of a set, in their order.
pub uninterp spec fn document_items(documents: &SdSet<DocumentId>) -> Seq<DocumentId>;

/// Each document is greater than the one before it.
pub open spec fn increasing(documents: Seq<DocumentId>) -> bool {
    forall|i: int, j: int| 0 <= i < j < documents.len() ==> documents[i] < documents[j]
}

/// Calls `sdset::Set::contains`: whether a set of increasing documents holds a document.
#[verifier::external_body]
fn document_set_contains(documents: &SdSet<DocumentId>, document: DocumentId) -> (found: bool)
    requires
        increasing(document_items(documents)),
    ensures
        found == document_items(documents).contains(document),
{
    documents.contains(&document)
}

/// Calls `sdset::Set::as_slice`: the slice of all documents.
#[verifier::external_body]
fn document_set_as_slice(documents: &SdSet<DocumentId>) -> (slice: &[DocumentId])
    ensures
        slice@ == document_items(documents),
{
    documents.as_slice()
}

/// Whether a document is one of these.
pub open spec fn one_of(documents: Seq<DocumentId>) -> spec_fn(DocumentId) -> bool {
    |document: DocumentId| documents.contains(document)
}

/// What one word of the query found in the documents that are kept. The matches count as exact.
pub open spec fn query_matches(
    query: QueryMatches<'_>,
    kept: spec_fn(DocumentId) -> bool,
) -> Seq<MatchModel> {
    list_matches(
        query.input@,
        query.query_index,
        query.distance,
        true,
        cow_items(&*query.matches),
        kept,
    )
}

/// What all words of the query found in the documents that are kept, word after word.
pub open spec fn all_matches(
    queries: Seq<QueryMatches<'_>>,
    kept: spec_fn(DocumentId) -> bool,
) -> Seq<MatchModel> {
    queries.flat_map(|query: QueryMatches<'_>| query_matches(query, kept))
}

/// The positions of every word stand there by increasing document.
pub open spec fn lists_are_sorted(queries: Seq<QueryMatches<'_>>) -> bool {
    forall|q: int|
        0 <= q < queries.len() ==> sorted_by_document(
            cow_items(&*(#[trigger] queries[q]).matches),
            index_document(),
        )
}

/// Adds a match for each group of positions of a postings list that is flagged: those in documents
/// that are kept.
pub(crate) fn push_kept_groups<'txn>(
    found: &mut Vec<BareMatch<PostingsListView<'txn>>>,
    view: &PostingsListView<'txn>,
    groups: &Vec<&[DocIndex]>,
    flags: &Vec<bool>,
    query_index: usize,
    distance: u8,
    is_exact: bool,
    Ghost(kept): Ghost<spec_fn(DocumentId) -> bool>,
)
    requires
        !view@.rewritten,
        contents(groups@) == runs(view@.indexes, index_document()),
        flags@.len() == groups@.len(),
        forall|g: int|
            0 <= g < flags@.len() ==> #[trigger] flags@[g] == kept(
                contents(groups@)[g][0].document_id,
            ),
    ensures
        match_models(final(found)@) == match_models(old(found)@) + list_matches(
            view@.input,
            query_index,
            distance,
            is_exact,
            view@.indexes,
            kept,
        ),
{
    let ghost before = match_models(found@);
    let ghost pieces = contents(groups@);
    let mut offset: usize = 0;
    let mut g: usize = 0;
    let len = view.len();
    proof {
        lemma_runs(view@.indexes, index_document());
        assert(match_models(found@) =~= before + group_matches(
            view@.input,
            query_index,
            distance,
            is_exact,
            pieces.take(0),
            kept,
        ));
    }
    while g < groups.len()
        invariant
            g <= groups@.len() == flags@.len(),
            !view@.rewritten,
            len == view@.indexes.len(),
            pieces == contents(groups@),
            pieces.flatten() == view@.indexes,
            forall|i: int| 0 <= i < pieces.len() ==> (#[trigger] pieces[i]).len() > 0,
            forall|i: int|
                0 <= i < flags@.len() ==> #[trigger] flags@[i] == kept(pieces[i][0].document_id),
            offset == pieces.take(g as int).flatten().len(),
            match_models(found@) == before + group_matches(
                view@.input,
                query_index,
                distance,
                is_exact,
                pieces.take(g as int),
                kept,
            ),
        decreases groups@.len() - g,
    {
        let group = groups[g];
        assert(pieces[g as int] == group@);
        proof {
            lemma_flatten_piece(pieces, g as int);
            lemma_group_matches_step(
                view@.input,
                query_index,
                distance,
                is_exact,
                pieces,
                kept,
                g as int,
            );
        }
        if flags[g] {
            let bare_match = BareMatch {
                document_id: group[0].document_id,
                query_index,
                distance,
                is_exact,
                postings_list: view.range(offset, group.len()),
            };
            let ghost shown = match_models(found@);
            found.push(bare_match);
            assert(match_models(found@) =~= shown.push(bare_match@));
        }
        offset = offset + group.len();
        g = g + 1;
        assert(match_models(found@) =~= before + group_matches(
            view@.input,
            query_index,
            distance,
            is_exact,
            pieces.take(g as int),
            kept,
        ));
    }
    assert(pieces.take(g as int) =~= pieces);
}

/// Adds what one word of the query found in the documents `docids`.
fn collect_list<'txn>(
    found: &mut Vec<BareMatch<PostingsListView<'txn>>>,
    query: &QueryMatches<'txn>,
    docids: &SdSet<DocumentId>,
)
    requires
        increasing(document_items(docids)),
        sorted_by_document(cow_items(&*query.matches), index_document()),
    ensures
        match_models(final(found)@) == match_models(old(found)@) + query_matches(
            *query,
            one_of(document_items(docids)),
        ),
{
    let ghost kept = one_of(document_items(docids));
    let view = PostingsListView::original(query.input.clone(), query.matches.clone());
    let groups = binary_document_groups(set_as_slice(&*view));
    let ghost pieces = contents(groups@);
    let mut flags: Vec<bool> = Vec::new();
    proof {
        lemma_runs(cow_items(&*query.matches), index_document());
    }
    while flags.len() < groups.len()
        invariant
            increasing(document_items(docids)),
            kept == one_of(document_items(docids)),
            pieces == contents(groups@),
            forall|g: int| 0 <= g < pieces.len() ==> (#[trigger] pieces[g]).len() > 0,
            flags@.len() <= groups@.len(),
            forall|g: int|
                0 <= g < flags@.len() ==> #[trigger] flags@[g] == kept(pieces[g][0].document_id),
        decreases groups@.len() - flags@.len(),
    {
        let group = groups[flags.len()];
        assert(pieces[flags@.len() as int] == group@);
        flags.push(document_set_contains(docids, group[0].document_id));
    }
    push_kept_groups(
        found,
        &view,
        &groups,
        &flags,
        query.query_index,
        query.distance,
        true,
        Ghost(kept),
    );
}

/// Collects what the words of the query found in the documents `docids`: word after word, a
/// match for each of the documents with the positions in it.
pub fn collect_matches<'txn>(
    queries: &Vec<QueryMatches<'txn>>,
    docids: &SdSet<DocumentId>,
) -> (found: Vec<BareMatch<PostingsListView<'txn>>>)
    requires
        lists_are_sorted(queries@),
        increasing(document_items(docids)),
    ensures
        match_models(found@) == all_matches(queries@, one_of(document_items(docids))),
{
    let ghost kept = one_of(document_items(docids));
    let ghost show = |query: QueryMatches<'_>| query_matches(query, kept);
    let mut found: Vec<BareMatch<PostingsListView<'txn>>> = Vec::new();
    let mut q: usize = 0;
    assert(match_models(found@) =~= queries@.take(0).flat_map(show));
    while q < queries.len()
        invariant
            q <= queries@.len(),
            lists_are_sorted(queries@),
            increasing(document_items(docids)),
            kept == one_of(document_items(docids)),
            show == (|query: QueryMatches<'_>| query_matches(query, kept)),
            match_models(found@) == queries@.take(q as int).flat_map(show),
        decreases queries@.len() - q,
    {
        proof {
            queries@.lemma_flat_map_take_append(show, q as int);
        }
        collect_list(&mut found, &queries[q], docids);
        q = q + 1;
    }
    assert(queries@.take(q as int) =~= queries@);
    found
}

/// Whether each document is greater than the one before it.
fn is_increasing(documents: &[DocumentId]) -> (result: bool)
    ensures
        result == increasing(documents@),
{
    let mut i: usize = 1;
    while i < documents.len()
        invariant
            1 <= i,
            forall|a: int, b: int|
                0 <= a < b < i && b < documents@.len() ==> documents@[a] < documents@[b],
        decreases documents@.len() - i,
    {
        if documents[i - 1] >= documents[i] {
            return false;
        }
        i = i + 1;
    }
    true
}

/// Collects what the words of the query found in the documents `docids`, like
/// [`collect_matches`], unless a postings list or `docids` is out of order.
pub fn try_collect_matches<'txn>(
    queries: &Vec<QueryMatches<'txn>>,
    docids: &SdSet<DocumentId>,
) -> (result: Option<Vec<BareMatch<PostingsListView<'txn>>>>)
    ensures
        result is Some <==> lists_are_sorted(queries@) && increasing(document_items(docids)),
        result is Some <==> (forall|q: int, i: int, j: int|
            #![trigger cow_items(&*queries@[q].matches)[i], cow_items(&*queries@[q].matches)[j]]
            0 <= q < queries@.len() && 0 <= i <= j < cow_items(&*queries@[q].matches).len()
                ==> cow_items(&*queries@[q].matches)[i].document_id <= cow_items(
                &*queries@[q].matches,
            )[j].document_id) && (forall|i: int, j: int|
            0 <= i < j < document_items(docids).len() ==> #[trigger] document_items(docids)[i]
                < #[trigger] document_items(docids)[j]),
        result matches Some(found) ==> match_models(found@) == all_matches(
            queries@,
            one_of(document_items(docids)),
        ),
{
    if !is_increasing(document_set_as_slice(docids)) {
        return None;
    }
    let mut q: usize = 0;
    while q < queries.len()
        invariant
            q <= queries@.len(),
            forall|p: int|
                0 <= p < q ==> sorted_by_document(
                    cow_items(&*(#[trigger] queries@[p]).matches),
                    index_document(),
                ),
        decreases queries@.len() - q,
    {
        if !is_sorted_by_document(set_as_slice(cow_as_set(&*queries[q].matches))) {
            return None;
        }
        q = q + 1;
    }
    Some(collect_matches(queries, docids))
}

/// Calls `sort_unstable_by_key` of a std slice with the document of each match: the matches stay
/// the same ones, by increasing document. The order of matches of one document is left open.
#[verifier::external_body]
fn sort_by_document<P>(matches: &mut [BareMatch<P>])
    ensures
        final(matches)@.to_multiset() == old(matches)@.to_multiset(),
        sorted_by_document(final(matches)@, match_document()),
{
    matches.sort_unstable_by_key(|m| m.document_id)
}

/// The matches of each of several documents.
pub open spec fn matches_of<P>(documents: Seq<RawDocument<Vec<BareMatch<P>>>>) -> Seq<
    Seq<BareMatch<P>>,
> {
    documents.map_values(|document: RawDocument<Vec<BareMatch<P>>>| document.matches@)
}

/// Gathers the matches of each document: every document that has a match comes once, by
/// increasing identifier, with all its matches. The order of the matches of a document is left
/// open.
#[verifier::rlimit(40)]
#[verifier::spinoff_prover]
pub fn group_by_document<P>(bare_matches: Vec<BareMatch<P>>) -> (documents: Vec<
    RawDocument<Vec<BareMatch<P>>>,
>)
    ensures
        matches_of(documents@).flatten().to_multiset() == bare_matches@.to_multiset(),
        documents@.map_values(
            |document: RawDocument<Vec<BareMatch<P>>>| document.matches@,
        ).flatten().to_multiset() == bare_matches@.to_multiset(),
        increasing(ids(documents@)),
        forall|c: int, d: int|
            0 <= c < d < documents@.len() ==> (#[trigger] documents@[c]).id < (
            #[trigger] documents@[d]).id,
        forall|d: int|
            0 <= d < documents@.len() ==> (#[trigger] documents@[d]).matches@.len() > 0,
        forall|d: int, m: int|
            0 <= d < documents@.len() && 0 <= m < documents@[d].matches@.len() ==> (
            #[trigger] documents@[d].matches@[m]).document_id == documents@[d].id,
{
    let mut bare_matches = bare_matches;
    sort_by_document(bare_matches.as_mut_slice());
    let ghost sorted = bare_matches@;
    let lens = document_group_lens(bare_matches.as_mut_slice());
    let ghost groups = runs(sorted, match_document());
    proof {
        lemma_runs(sorted, match_document());
        assert(groups.take(groups.len() as int) =~= groups);
    }
    let mut reversed: Vec<RawDocument<Vec<BareMatch<P>>>> = Vec::new();
    let mut g: usize = lens.len();
    while 0 < g
        invariant
            g <= lens@.len() == groups.len(),
            groups == runs(sorted, match_document()),
            forall|i: int| 0 <= i < lens@.len() ==> #[trigger] lens@[i] == groups[i].len(),
            forall|i: int| 0 <= i < groups.len() ==> (#[trigger] groups[i]).len() > 0,
            bare_matches@ == groups.take(g as int).flatten(),
            reversed@.len() == groups.len() - g,
            forall|i: int|
                0 <= i < reversed@.len() ==> {
                    &&& (#[trigger] reversed@[i]).matches@ == groups[groups.len() - 1 - i]
                    &&& reversed@[i].id == groups[groups.len() - 1 - i][0].document_id
                },
        decreases g,
    {
        g = g - 1;
        proof {
            lemma_flatten_piece(groups, g as int);
        }
        let start = bare_matches.len() - lens[g];
        let matches = bare_matches.split_off(start);
        proof {
            assert(matches@ =~= groups[g as int]);
            assert(bare_matches@ =~= groups.take(g as int).flatten());
        }
        let id = matches[0].document_id;
        reversed.push(RawDocument { id, matches });
    }
    let mut documents: Vec<RawDocument<Vec<BareMatch<P>>>> = Vec::new();
    let mut left: usize = reversed.len();
    while 0 < left
        invariant
            left == reversed@.len(),
            left + documents@.len() == groups.len(),
            forall|i: int|
                0 <= i < reversed@.len() ==> {
                    &&& (#[trigger] reversed@[i]).matches@ == groups[groups.len() - 1 - i]
                    &&& reversed@[i].id == groups[groups.len() - 1 - i][0].document_id
                },
            forall|i: int|
                0 <= i < documents@.len() ==> (#[trigger] documents@[i]).matches@ == groups[i]
                    && documents@[i].id == groups[i][0].document_id,
        decreases left,
    {
        let next = reversed.pop();
        if let Some(document) = next {
            documents.push(document);
        }
        left = left - 1;
    }
    proof {
        assert(matches_of(documents@) =~= groups);
        lemma_runs_increasing(sorted, match_document());
        assert forall|i: int, j: int| 0 <= i < j < documents@.len() implies ids(documents@)[i]
            < ids(documents@)[j] by {
            assert(documents@[i].id == groups[i][0].document_id);
            assert(documents@[j].id == groups[j][0].document_id);
        }
        assert forall|d: int, m: int|
            0 <= d < documents@.len() && 0 <= m < documents@[d].matches@.len() implies (
        #[trigger] documents@[d].matches@[m]).document_id == documents@[d].id by {
            assert(match_document()(groups[d][m]) == match_document()(groups[d][0]));
        }
    }
    documents
}

/// A match stands for positions of the list, all in its document, and its document is kept.
pub proof fn matches_lie_in_kept_documents(
    input: Seq<u8>,
    query_index: usize,
    distance: u8,
    is_exact: bool,
    indexes: Seq<DocIndex>,
    kept: spec_fn(DocumentId) -> bool,
    m: int,
)
    requires
        0 <= m < list_matches(input, query_index, distance, is_exact, indexes, kept).len(),
    ensures
        ({
            let found = list_matches(input, query_index, distance, is_exact, indexes, kept)[m];
            &&& kept(found.document_id)
            &&& found.query_index == query_index
            &&& found.distance == distance
            &&& found.is_exact == is_exact
            &&& found.postings.input == input
            &&& found.postings.indexes.len() > 0
            &&& forall|i: int|
                0 <= i < found.postings.indexes.len() ==> indexes.contains(
                    #[trigger] found.postings.indexes[i],
                ) && found.postings.indexes[i].document_id == found.document_id
        }),
{
    broadcast use vstd::seq_lib::group_filter_ensures;

    let groups = runs(indexes, index_document());
    let keep = |group: Seq<DocIndex>| kept(group[0].document_id);
    let found = list_matches(input, query_index, distance, is_exact, indexes, kept)[m];
    lemma_runs(indexes, index_document());
    assert(keep(groups.filter(keep)[m]));
    let g = lemma_filter_origin(groups, keep, m);
    assert(found.postings.indexes == groups[g]);
    lemma_flatten_piece(groups, g);
    assert forall|i: int| 0 <= i < groups[g].len() implies indexes.contains(
        #[trigger] groups[g][i],
    ) && groups[g][i].document_id == groups[g][0].document_id by {
        let offset = groups.take(g).flatten().len() as int;
        assert(indexes.subrange(offset, offset + groups[g].len())[i] == indexes[offset + i]);
        assert(index_document()(groups[g][i]) == index_document()(groups[g][0]));
    }
}

/// What passes a filter is an item of the sequence.
proof fn lemma_filter_origin<A>(items: Seq<A>, keep: spec_fn(A) -> bool, m: int) -> (i: int)
    requires
        0 <= m < items.filter(keep).len(),
    ensures
        0 <= i < items.len(),
        items[i] == items.filter(keep)[m],
    decreases items.len(),
{
    reveal(Seq::filter);
    let rest = items.drop_last();
    if items.len() > 0 && m < rest.filter(keep).len() {
        let i = lemma_filter_origin(rest, keep, m);
        assert(items[i] == rest[i]);
        i
    } else {
        items.len() - 1
    }
}

/// The matches of a list stand together for its positions in documents that are kept: for each of
/// them once, in their order.
pub proof fn matches_hold_the_kept_positions(
    input: Seq<u8>,
    query_index: usize,
    distance: u8,
    is_exact: bool,
    indexes: Seq<DocIndex>,
    kept: spec_fn(DocumentId) -> bool,
)
    ensures
        list_matches(input, query_index, distance, is_exact, indexes, kept).map_values(
            |found: MatchModel| found.postings.indexes,
        ).flatten() == indexes.filter(|index: DocIndex| kept(index.document_id)),
{
    let groups = runs(indexes, index_document());
    let keep = |group: Seq<DocIndex>| kept(group[0].document_id);
    let positions = |found: MatchModel| found.postings.indexes;
    lemma_runs(indexes, index_document());
    assert(list_matches(input, query_index, distance, is_exact, indexes, kept).map_values(
        positions,
    ) =~= groups.filter(keep));
    assert forall|g: int, i: int| 0 <= g < groups.len() && 0 <= i < groups[g].len() implies (
    #[trigger] groups[g][i]).document_id == groups[g][0].document_id by {
        assert(index_document()(groups[g][i]) == index_document()(groups[g][0]));
    }
    lemma_kept_positions(groups, kept);
}

/// The positions of the groups that are kept are the positions of all groups that are.
proof fn lemma_kept_positions(groups: Seq<Seq<DocIndex>>, kept: spec_fn(DocumentId) -> bool)
    requires
        forall|g: int, i: int|
            0 <= g < groups.len() && 0 <= i < groups[g].len() ==> (
            #[trigger] groups[g][i]).document_id == groups[g][0].document_id,
    ensures
        groups.filter(|group: Seq<DocIndex>| kept(group[0].document_id)).flatten()
            == groups.flatten().filter(|index: DocIndex| kept(index.document_id)),
    decreases groups.len(),
{
    let keep = |group: Seq<DocIndex>| kept(group[0].document_id);
    let keep_index = |index: DocIndex| kept(index.document_id);
    if groups.len() == 0 {
        reveal(Seq::filter);
        assert(groups.filter(keep) =~= groups);
        assert(groups.flatten() =~= Seq::empty());
    } else {
        let rest = groups.drop_last();
        let last = groups.last();
        assert forall|g: int, i: int| 0 <= g < rest.len() && 0 <= i < rest[g].len() implies (
        #[trigger] rest[g][i]).document_id == rest[g][0].document_id by {
            assert(rest[g][i] == groups[g][i]);
        }
        lemma_kept_positions(rest, kept);
        assert(groups =~= rest.push(last));
        rest.lemma_filter_push(last, keep);
        rest.lemma_flatten_push(last);
        rest.filter(keep).lemma_flatten_push(last);
        Seq::filter_distributes_over_add(rest.flatten(), last, keep_index);
        assert forall|i: int| 0 <= i < last.len() implies keep_index(#[trigger] last[i]) == keep(
            last,
        ) by {
            assert(groups[groups.len() - 1][i] == last[i]);
        }
        lemma_filter_all_or_none(last, keep_index, keep(last));
        assert(rest.filter(keep).flatten() + Seq::<DocIndex>::empty() =~= rest.filter(
            keep,
        ).flatten());
    }
}

/// A filter that treats all items alike keeps all or none.
proof fn lemma_filter_all_or_none<A>(items: Seq<A>, keep: spec_fn(A) -> bool, all: bool)
    requires
        forall|i: int| 0 <= i < items.len() ==> keep(#[trigger] items[i]) == all,
    ensures
        items.filter(keep) == if all {
            items
        } else {
            Seq::empty()
        },
    decreases items.len(),
{
    reveal(Seq::filter);
    if items.len() > 0 {
        let rest = items.drop_last();
        lemma_filter_all_or_none(rest, keep, all);
        assert(keep(items[items.len() - 1]) == all);
        assert(rest.push(items.last()) =~= items);
    }
}

/// Every collected match lies in one of the documents to which the search was narrowed, and belongs
/// to one of the words of the query.
pub proof fn matches_lie_in_the_documents_found(
    queries: Seq<QueryMatches<'_>>,
    documents: Seq<DocumentId>,
    m: int,
)
    requires
        0 <= m < all_matches(queries, one_of(documents)).len(),
    ensures
        documents.contains(all_matches(queries, one_of(documents))[m].document_id),
        exists|q: int|
            0 <= q < queries.len() && (#[trigger] queries[q]).query_index == all_matches(
                queries,
                one_of(documents),
            )[m].query_index,
{
    let show = |query: QueryMatches<'_>| query_matches(query, one_of(documents));
    let (q, k) = lemma_flatten_origin(queries.map_values(show), m);
    matches_lie_in_kept_documents(
        queries[q].input@,
        queries[q].query_index,
        queries[q].distance,
        true,
        cow_items(&*queries[q].matches),
        one_of(documents),
        k,
    );
    assert(queries[q].query_index == all_matches(queries, one_of(documents))[m].query_index);
}

/// The documents that hold the matches between them are those in which something matched.
pub proof fn candidates_are_the_matched_documents<P>(
    matches: Seq<BareMatch<P>>,
    documents: Seq<RawDocument<Vec<BareMatch<P>>>>,
    document: DocumentId,
)
    requires
        matches_of(documents).flatten().to_multiset() == matches.to_multiset(),
        forall|d: int| 0 <= d < documents.len() ==> (#[trigger] documents[d]).matches@.len() > 0,
        forall|d: int, m: int|
            0 <= d < documents.len() && 0 <= m < documents[d].matches@.len() ==> (
            #[trigger] documents[d].matches@[m]).document_id == documents[d].id,
    ensures
        ids(documents).contains(document) <==> matches.map_values(match_document()).contains(
            document,
        ),
{
    let pieces = matches_of(documents);
    if ids(documents).contains(document) {
        let d = choose|d: int| 0 <= d < ids(documents).len() && ids(documents)[d] == document;
        assert(documents[d].id == document);
        assert(documents[d].matches@[0].document_id == document);
        lemma_flatten_piece(pieces, d);
        let offset = pieces.take(d).flatten().len() as int;
        assert(pieces.flatten().subrange(offset, offset + pieces[d].len())[0] == pieces[d][0]);
        let m = lemma_same_items(pieces.flatten(), matches, offset);
        assert(matches.map_values(match_document())[m] == document);
    }
    if matches.map_values(match_document()).contains(document) {
        let m = choose|m: int|
            0 <= m < matches.len() && matches.map_values(match_document())[m] == document;
        let k = lemma_same_items(matches, pieces.flatten(), m);
        let (d, i) = lemma_flatten_origin(pieces, k);
        assert(documents[d].matches@[i].document_id == document);
        assert(ids(documents)[d] == document);
    }
}

/// Each position of a list in a document that is kept stands in one of its matches.
pub proof fn kept_positions_are_matched(
    input: Seq<u8>,
    query_index: usize,
    distance: u8,
    is_exact: bool,
    indexes: Seq<DocIndex>,
    kept: spec_fn(DocumentId) -> bool,
    i: int,
) -> (m: int)
    requires
        0 <= i < indexes.len(),
        kept(indexes[i].document_id),
    ensures
        0 <= m < list_matches(input, query_index, distance, is_exact, indexes, kept).len(),
        list_matches(
            input,
            query_index,
            distance,
            is_exact,
            indexes,
            kept,
        )[m].postings.indexes.contains(indexes[i]),
        list_matches(input, query_index, distance, is_exact, indexes, kept)[m].document_id
            == indexes[i].document_id,
{
    broadcast use vstd::seq_lib::group_filter_ensures;

    let found = list_matches(input, query_index, distance, is_exact, indexes, kept);
    let positions = found.map_values(|found: MatchModel| found.postings.indexes);
    let keep = |index: DocIndex| kept(index.document_id);
    matches_hold_the_kept_positions(input, query_index, distance, is_exact, indexes, kept);
    assert(indexes.filter(keep).contains(indexes[i]));
    let p = choose|p: int|
        0 <= p < positions.flatten().len() && positions.flatten()[p] == indexes[i];
    let (m, k) = lemma_flatten_origin(positions, p);
    assert(found[m].postings.indexes[k] == indexes[i]);
    matches_lie_in_kept_documents(input, query_index, distance, is_exact, indexes, kept, m);
    m
}

/// A filter keeps the order of groups by increasing document.
proof fn lemma_filter_increasing(
    groups: Seq<Seq<DocIndex>>,
    keep: spec_fn(Seq<DocIndex>) -> bool,
    a: int,
    b: int,
)
    requires
        forall|g: int, h: int|
            0 <= g < h < groups.len() ==> (#[trigger] groups[g])[0].document_id < (
            #[trigger] groups[h])[0].document_id,
        0 <= a < b < groups.filter(keep).len(),
    ensures
        groups.filter(keep)[a][0].document_id < groups.filter(keep)[b][0].document_id,
    decreases groups.len(),
{
    reveal(Seq::filter);
    let rest = groups.drop_last();
    if b < rest.filter(keep).len() {
        lemma_filter_increasing(rest, keep, a, b);
    } else {
        let g = lemma_filter_origin(rest, keep, a);
        assert(groups[g] == rest[g]);
        assert(groups[groups.len() - 1] == groups.last());
    }
}

/// A list by increasing document makes one match for each document.
pub proof fn sorted_lists_match_each_document_once(
    input: Seq<u8>,
    query_index: usize,
    distance: u8,
    is_exact: bool,
    indexes: Seq<DocIndex>,
    kept: spec_fn(DocumentId) -> bool,
    a: int,
    b: int,
)
    requires
        forall|i: int, j: int|
            0 <= i <= j < indexes.len() ==> (#[trigger] indexes[i]).document_id <= (
            #[trigger] indexes[j]).document_id,
        0 <= a < b < list_matches(input, query_index, distance, is_exact, indexes, kept).len(),
    ensures
        list_matches(input, query_index, distance, is_exact, indexes, kept)[a].document_id
            < list_matches(input, query_index, distance, is_exact, indexes, kept)[b].document_id,
{
    let groups = runs(indexes, index_document());
    let keep = |group: Seq<DocIndex>| kept(group[0].document_id);
    lemma_runs_increasing(indexes, index_document());
    assert forall|g: int, h: int| 0 <= g < h < groups.len() implies (
    #[trigger] groups[g])[0].document_id < (#[trigger] groups[h])[0].document_id by {
        assert(index_document()(groups[g][0]) < index_document()(groups[h][0]));
    }
    lemma_filter_increasing(groups, keep, a, b);
}

/// Each position of each entry in one of the documents is held by a match of its document, with
/// what the entry says, whatever the other entries are.
pub proof fn every_entry_is_collected(
    queries: Seq<QueryMatches<'_>>,
    documents: Seq<DocumentId>,
    found: Seq<BareMatch<PostingsListView<'_>>>,
    q: int,
    i: int,
) -> (m: int)
    requires
        match_models(found) == all_matches(queries, one_of(documents)),
        0 <= q < queries.len(),
        0 <= i < cow_items(&*queries[q].matches).len(),
        documents.contains(cow_items(&*queries[q].matches)[i].document_id),
    ensures
        0 <= m < found.len(),
        found[m].document_id == cow_items(&*queries[q].matches)[i].document_id,
        found[m].query_index == queries[q].query_index,
        found[m].distance == queries[q].distance,
        found[m].is_exact,
        found[m].postings_list@.input == queries[q].input@,
        found[m].postings_list@.indexes.contains(cow_items(&*queries[q].matches)[i]),
{
    let kept = one_of(documents);
    let indexes = cow_items(&*queries[q].matches);
    let show = |query: QueryMatches<'_>| query_matches(query, kept);
    let lists = queries.map_values(show);
    let (input, query_index, distance) = (
        queries[q].input@,
        queries[q].query_index,
        queries[q].distance,
    );
    let k = kept_positions_are_matched(input, query_index, distance, true, indexes, kept, i);
    matches_lie_in_kept_documents(input, query_index, distance, true, indexes, kept, k);
    lemma_flatten_piece(lists, q);
    let offset = lists.take(q).flatten().len() as int;
    assert(lists.flatten().subrange(offset, offset + lists[q].len())[k] == lists.flatten()[offset
        + k]);
    assert(match_models(found)[offset + k] == found[offset + k]@);
    offset + k
}

/// Each match stands for positions of one entry, all in its document, which is one of the
/// documents, and says what the entry says.
pub proof fn every_match_is_of_an_entry(
    queries: Seq<QueryMatches<'_>>,
    documents: Seq<DocumentId>,
    found: Seq<BareMatch<PostingsListView<'_>>>,
    m: int,
) -> (q: int)
    requires
        match_models(found) == all_matches(queries, one_of(documents)),
        0 <= m < found.len(),
    ensures
        0 <= q < queries.len(),
        documents.contains(found[m].document_id),
        found[m].query_index == queries[q].query_index,
        found[m].distance == queries[q].distance,
        found[m].is_exact,
        found[m].postings_list@.input == queries[q].input@,
        found[m].postings_list@.indexes.len() > 0,
        forall|i: int|
            0 <= i < found[m].postings_list@.indexes.len() ==> cow_items(
                &*queries[q].matches,
            ).contains(#[trigger] found[m].postings_list@.indexes[i])
                && found[m].postings_list@.indexes[i].document_id == found[m].document_id,
{
    let show = |query: QueryMatches<'_>| query_matches(query, one_of(documents));
    assert(match_models(found)[m] == found[m]@);
    let (q, k) = lemma_flatten_origin(queries.map_values(show), m);
    matches_lie_in_kept_documents(
        queries[q].input@,
        queries[q].query_index,
        queries[q].distance,
        true,
        cow_items(&*queries[q].matches),
        one_of(documents),
        k,
    );
    q
}

/// One more entry adds matches behind those of the others: matches with what it says, which hold
/// together its positions in the documents, in their order, and each document once.
pub proof fn one_more_entry_adds_its_matches(
    queries: Seq<QueryMatches<'_>>,
    query: QueryMatches<'_>,
    documents: Seq<DocumentId>,
    before: Seq<BareMatch<PostingsListView<'_>>>,
    after: Seq<BareMatch<PostingsListView<'_>>>,
)
    requires
        match_models(before) == all_matches(queries, one_of(documents)),
        match_models(after) == all_matches(queries.push(query), one_of(documents)),
        forall|i: int, j: int|
            0 <= i <= j < cow_items(&*query.matches).len() ==> (#[trigger] cow_items(
                &*query.matches,
            )[i]).document_id <= (#[trigger] cow_items(&*query.matches)[j]).document_id,
    ensures
        before.len() <= after.len(),
        match_models(after).take(before.len() as int) == match_models(before),
        after.skip(before.len() as int).map_values(
            |added: BareMatch<PostingsListView<'_>>| added.postings_list@.indexes,
        ).flatten() == cow_items(&*query.matches).filter(
            |index: DocIndex| documents.contains(index.document_id),
        ),
        forall|m: int|
            before.len() <= m < after.len() ==> {
                &&& (#[trigger] after[m]).query_index == query.query_index
                &&& after[m].distance == query.distance
                &&& after[m].is_exact
                &&& after[m].postings_list@.input == query.input@
                &&& !after[m].postings_list@.rewritten
                &&& after[m].postings_list@.indexes.len() > 0
                &&& after[m].postings_list@.indexes[0].document_id == after[m].document_id
            },
        forall|m: int, n: int|
            before.len() <= m < n < after.len() ==> (#[trigger] after[m]).document_id < (
            #[trigger] after[n]).document_id,
{
    let kept = one_of(documents);
    let indexes = cow_items(&*query.matches);
    let show = |query: QueryMatches<'_>| query_matches(query, kept);
    let longer = queries.push(query);
    let n = before.len() as int;
    longer.lemma_flat_map_take_append(show, queries.len() as int);
    assert(longer.take(queries.len() as int) =~= queries);
    assert(longer.take(queries.len() as int + 1) =~= longer);
    let added = query_matches(query, kept);
    assert(match_models(after) == match_models(before) + added);
    assert(match_models(before).len() == n);
    assert(match_models(after).len() == after.len());
    assert(match_models(after).take(n) =~= match_models(before));
    matches_hold_the_kept_positions(
        query.input@,
        query.query_index,
        query.distance,
        true,
        indexes,
        kept,
    );
    assert forall|m: int| n <= m < after.len() implies (#[trigger] after[m])@ == added[m - n] by {
        assert(match_models(after)[m] == after[m]@);
    }
    assert(after.skip(n).map_values(
        |added: BareMatch<PostingsListView<'_>>| added.postings_list@.indexes,
    ) =~= added.map_values(|found: MatchModel| found.postings.indexes));
    assert(indexes.filter(|index: DocIndex| kept(index.document_id)) == indexes.filter(
        |index: DocIndex| documents.contains(index.document_id),
    )) by {
        assert((|index: DocIndex| kept(index.document_id)) =~= (|index: DocIndex|
            documents.contains(index.document_id)));
    }
    assert forall|m: int| n <= m < after.len() implies {
        &&& (#[trigger] after[m]).query_index == query.query_index
        &&& after[m].distance == query.distance
        &&& after[m].is_exact
        &&& after[m].postings_list@.input == query.input@
        &&& !after[m].postings_list@.rewritten
        &&& after[m].postings_list@.indexes.len() > 0
        &&& after[m].postings_list@.indexes[0].document_id == after[m].document_id
    } by {
        assert(after[m]@ == added[m - n]);
        matches_lie_in_kept_documents(
            query.input@,
            query.query_index,
            query.distance,
            true,
            indexes,
            kept,
            m - n,
        );
        assert(added[m - n].postings.indexes[0].document_id == added[m - n].document_id);
    }
    assert forall|m: int, o: int| n <= m < o < after.len() implies (
    #[trigger] after[m]).document_id < (#[trigger] after[o]).document_id by {
        assert(after[m]@ == added[m - n] && after[o]@ == added[o - n]);
        sorted_lists_match_each_document_once(
            query.input@,
            query.query_index,
            query.distance,
            true,
            indexes,
            kept,
            m - n,
            o - n,
        );
    }
}

/// Nothing is collected without an entry.
pub proof fn no_entry_no_match(
    documents: Seq<DocumentId>,
    found: Seq<BareMatch<PostingsListView<'_>>>,
)
    requires
        match_models(found) == all_matches(Seq::empty(), one_of(documents)),
    ensures
        found.len() == 0,
{
    let show = |query: QueryMatches<'_>| query_matches(query, one_of(documents));
    assert(Seq::<QueryMatches<'_>>::empty().flat_map(show) =~= Seq::empty());
    assert(match_models(found).len() == found.len());
}

} // verus!
