//! Postings lists stored side by side in an arena.

use compact_arena::{Idx, Idx32, SmallArena};
use vstd::prelude::*;

use crate::documents::BareMatch;
use crate::postings::{PostingsListView, PostingsModel};

verus! {

/// `compact_arena::SmallArena`, a vector that only grows.
#[verifier::external_type_specification]
#[verifier::external_body]
#[verifier::reject_recursive_types(T)]
pub struct ExSmallArena<'tag, T>(SmallArena<'tag, T>);

/// `compact_arena::Idx`, the place of an item in an arena.
#[verifier::external_type_specification]
#[verifier::external_body]
#[verifier::reject_recursive_types(I)]
pub struct ExIdx<'tag, I: Copy + Clone>(Idx<'tag, I>);

/// What the postings lists of an arena show, in the order of their places.
pub uninterp spec fn arena_items(arena: &SmallArena<'_, PostingsListView<'_>>) -> Seq<
    PostingsModel,
>;

/// The number of the place to which an index leads.
pub uninterp spec fn arena_place(index: &Idx<'_, u32>) -> nat;

/// Calls `compact_arena::SmallArena::try_add`: an arena of fewer than `u32::MAX` items takes the
/// postings list as its last item and hands out the place of that item; a fuller one takes nothing.
#[verifier::external_body]
fn arena_try_add<'tag, 'txn>(
    arena: &mut SmallArena<'tag, PostingsListView<'txn>>,
    item: PostingsListView<'txn>,
) -> (place: Option<Idx32<'tag>>)
    ensures
        place is Some <==> arena_items(old(arena)).len() < u32::MAX,
        place matches Some(index) ==> arena_place(&index) == arena_items(old(arena)).len()
            && arena_items(final(arena)) == arena_items(old(arena)).push(item@),
        place is None ==> arena_items(final(arena)) == arena_items(old(arena)),
{
    arena.try_add(item).ok()
}

/// The postings lists of a sequence of matches.
pub open spec fn postings_of(matches: Seq<BareMatch<PostingsListView<'_>>>) -> Seq<PostingsModel> {
    matches.map_values(|bare_match: BareMatch<PostingsListView<'_>>| bare_match.postings_list@)
}

/// How many more items fit into an arena that holds these.
pub open spec fn room(items: Seq<PostingsModel>) -> int {
    if items.len() < u32::MAX {
        u32::MAX - items.len()
    } else {
        0
    }
}

/// Whether two matches say the same, however they hold the positions.
pub open spec fn same_match<P, Q>(a: BareMatch<P>, b: BareMatch<Q>) -> bool {
    &&& a.document_id == b.document_id
    &&& a.query_index == b.query_index
    &&& a.distance == b.distance
    &&& a.is_exact == b.is_exact
}

/// Moves the postings lists of the matches to the end of an arena, in the order of the matches,
/// each of which then holds the place of its postings list. `None` if they do not all fit: the
/// arena then holds those that did.
pub fn store_matches<'tag, 'txn>(
    matches: Vec<BareMatch<PostingsListView<'txn>>>,
    arena: &mut SmallArena<'tag, PostingsListView<'txn>>,
) -> (result: Option<Vec<BareMatch<Idx32<'tag>>>>)
    ensures
        result is Some <==> matches@.len() <= room(arena_items(old(arena))),
        result is Some <==> matches@.len() == 0 || arena_items(old(arena)).len() + matches@.len()
            <= u32::MAX,
        result matches Some(stored) ==> forall|i: int|
            0 <= i < matches@.len() ==> {
                &&& (#[trigger] stored@[i]).document_id == matches@[i].document_id
                &&& stored@[i].query_index == matches@[i].query_index
                &&& stored@[i].distance == matches@[i].distance
                &&& stored@[i].is_exact == matches@[i].is_exact
            },
        result is Some ==> arena_items(final(arena)) == arena_items(old(arena))
            + matches@.map_values(
            |bare_match: BareMatch<PostingsListView<'_>>| bare_match.postings_list@,
        ),
        result matches Some(stored) ==> {
            &&& arena_items(final(arena)) == arena_items(old(arena)) + postings_of(matches@)
            &&& stored@.len() == matches@.len()
            &&& forall|i: int|
                0 <= i < matches@.len() ==> same_match(#[trigger] stored@[i], matches@[i])
                    && arena_place(&stored@[i].postings_list) == arena_items(old(arena)).len() + i
                    && arena_items(final(arena))[arena_place(&stored@[i].postings_list) as int]
                    == matches@[i].postings_list@
        },
        result is None ==> arena_items(final(arena)) == arena_items(old(arena)) + postings_of(
            matches@,
        ).take(room(arena_items(old(arena)))),
{
    let ghost before = arena_items(arena);
    let ghost all = matches@;
    let mut stored: Vec<BareMatch<Idx32<'tag>>> = Vec::new();
    assert(arena_items(arena) =~= before + postings_of(all).take(0));
    for bare_match in iter: matches
        invariant
            iter.seq() == all,
            stored@.len() == iter.index(),
            stored@.len() <= all.len(),
            before == arena_items(old(arena)),
            stored@.len() <= room(before),
            arena_items(arena) == before + postings_of(all).take(stored@.len() as int),
            forall|i: int|
                0 <= i < stored@.len() ==> same_match(#[trigger] stored@[i], all[i])
                    && arena_place(&stored@[i].postings_list) == before.len() + i,
    {
        let BareMatch { document_id, query_index, distance, is_exact, postings_list } = bare_match;
        match arena_try_add(arena, postings_list) {
            Some(postings_list) => {
                stored.push(
                    BareMatch { document_id, query_index, distance, is_exact, postings_list },
                );
                assert(arena_items(arena) =~= before + postings_of(all).take(stored@.len() as int));
            },
            None => {
                return None;
            },
        }
    }
    assert(postings_of(all).take(all.len() as int) =~= postings_of(all));
    Some(stored)
}

} // verus!
