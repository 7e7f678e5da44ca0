//! Sequences cut into consecutive groups.

use slice_group_by::{GroupBy, GroupByMut};
use vstd::prelude::*;

use crate::documents::{BareMatch, DocIndex, DocumentId};

verus! {

/// Where group `g` starts in a sequence that is cut into consecutive groups of these lengths.
pub open spec fn offset(lens: Seq<usize>, g: int) -> int
    decreases g,
{
    if g <= 0 {
        0
    } else {
        offset(lens, g - 1) + lens[g - 1]
    }
}

/// Groups start in the order of their indices.
pub proof fn lemma_offset_monotone(lens: Seq<usize>, g: int, h: int)
    requires
        0 <= g <= h <= lens.len(),
    ensures
        0 <= offset(lens, g) <= offset(lens, h),
    decreases h,
{
    if g < h {
        lemma_offset_monotone(lens, g, h - 1);
    } else if 0 < h {
        lemma_offset_monotone(lens, g - 1, h - 1);
    }
}

/// Sequences that hold the same items, each as often, still do so once each item is mapped.
pub proof fn lemma_map_multiset<A, B>(s: Seq<A>, t: Seq<A>, f: spec_fn(A) -> B)
    requires
        s.to_multiset() == t.to_multiset(),
    ensures
        s.map_values(f).to_multiset() == t.map_values(f).to_multiset(),
    decreases s.len(),
{
    broadcast use vstd::seq_lib::group_to_multiset_ensures;

    if s.len() == 0 {
        s.to_multiset_ensures();
        t.to_multiset_ensures();
        assert(s.map_values(f) =~= t.map_values(f));
    } else {
        let last = s.last();
        let rest = s.drop_last();
        assert(s =~= rest.push(last));
        assert(s.contains(last));
        assert(t.to_multiset().count(last) > 0);
        let i = choose|i: int| 0 <= i < t.len() && t[i] == last;
        let others = t.remove(i);
        assert(others.to_multiset() =~= t.to_multiset().remove(last));
        assert(rest.to_multiset() =~= s.to_multiset().remove(last));
        lemma_map_multiset(rest, others, f);
        assert(s.map_values(f) =~= rest.map_values(f).push(f(last)));
        assert(t.map_values(f) =~= others.map_values(f).insert(i, f(last)));
    }
}

/// An item of one of two sequences with the same items is an item of the other.
pub proof fn lemma_same_items<A>(s: Seq<A>, t: Seq<A>, i: int) -> (j: int)
    requires
        s.to_multiset() == t.to_multiset(),
        0 <= i < s.len(),
    ensures
        0 <= j < t.len(),
        t[j] == s[i],
{
    broadcast use vstd::seq_lib::group_to_multiset_ensures;

    assert(s.contains(s[i]));
    assert(t.to_multiset().count(s[i]) > 0);
    choose|j: int| 0 <= j < t.len() && t[j] == s[i]
}

/// The longest groups of consecutive items that belong to one document: an item joins the
/// group before it when both belong to the same document, and starts a group otherwise.
pub open spec fn runs<A>(items: Seq<A>, document: spec_fn(A) -> DocumentId) -> Seq<Seq<A>>
    decreases items.len(),
{
    if items.len() == 0 {
        Seq::empty()
    } else {
        let before = runs(items.drop_last(), document);
        let item = items.last();
        if before.len() > 0 && document(before.last().last()) == document(item) {
            before.drop_last().push(before.last().push(item))
        } else {
            before.push(seq![item])
        }
    }
}

/// The document of a position.
pub open spec fn index_document() -> spec_fn(DocIndex) -> DocumentId {
    |index: DocIndex| index.document_id
}

/// The document of a match.
pub open spec fn match_document<P>() -> spec_fn(BareMatch<P>) -> DocumentId {
    |bare_match: BareMatch<P>| bare_match.document_id
}

/// The items of each of several slices.
pub open spec fn contents<A>(slices: Seq<&[A]>) -> Seq<Seq<A>> {
    slices.map_values(|slice: &[A]| slice@)
}

/// The documents of consecutive items never decrease.
pub open spec fn sorted_by_document<A>(
    items: Seq<A>,
    document: spec_fn(A) -> DocumentId,
) -> bool {
    forall|i: int, j: int|
        0 <= i <= j < items.len() ==> document(#[trigger] items[i]) <= document(
            #[trigger] items[j],
        )
}

/// Calls `linear_group_by_key` of `slice_group_by` with the document of each position:
/// the longest groups of consecutive positions in one document.
#[verifier::external_body]
pub(crate) fn linear_document_groups(indexes: &[DocIndex]) -> (groups: Vec<&[DocIndex]>)
    ensures
        contents(groups@) == runs(indexes@, index_document()),
{
    indexes.linear_group_by_key(|index| index.document_id).collect()
}

/// Calls `binary_group_by_key` of `slice_group_by` with the document of each position:
/// of sorted positions, the longest groups of consecutive positions in one document.
#[verifier::external_body]
pub(crate) fn binary_document_groups(indexes: &[DocIndex]) -> (groups: Vec<&[DocIndex]>)
    requires
        sorted_by_document(indexes@, index_document()),
    ensures
        contents(groups@) == runs(indexes@, index_document()),
{
    indexes.binary_group_by_key(|index| index.document_id).collect()
}

/// Calls `linear_group_by_key_mut` of `slice_group_by` with the document of each match and keeps
/// the lengths of the groups: those of the longest groups of consecutive matches in one
/// document. Nothing moves.
#[verifier::external_body]
pub(crate) fn document_group_lens<P>(matches: &mut [BareMatch<P>]) -> (lens: Vec<usize>)
    ensures
        final(matches)@ == old(matches)@,
        lens@.len() == runs(old(matches)@, match_document()).len(),
        forall|g: int|
            0 <= g < lens@.len() ==> #[trigger] lens@[g] == runs(
                old(matches)@,
                match_document(),
            )[g].len(),
{
    matches.linear_group_by_key_mut(|m| m.document_id).map(|group| group.len()).collect()
}

/// Groups of items make up all items, none is empty, and items are in one group with
/// the next one exactly when both belong to the same document.
pub proof fn lemma_runs<A>(items: Seq<A>, document: spec_fn(A) -> DocumentId)
    ensures
        runs(items, document).flatten() == items,
        forall|g: int, i: int|
            0 <= g < runs(items, document).len() && 0 <= i < runs(items, document)[g].len()
                ==> document(#[trigger] runs(items, document)[g][i]) == document(
                runs(items, document)[g][0],
            ),
        forall|g: int|
            0 <= g < runs(items, document).len() ==> (#[trigger] runs(items, document)[g]).len()
                > 0,
        forall|g: int|
            0 < g < runs(items, document).len() ==> document(
                #[trigger] runs(items, document)[g][0],
            ) != document(runs(items, document)[g - 1][0]),
    decreases items.len(),
{
    let all = runs(items, document);
    if items.len() > 0 {
        let before = runs(items.drop_last(), document);
        let item = items.last();
        lemma_runs(items.drop_last(), document);
        assert(items =~= items.drop_last().push(item));
        if before.len() > 0 && document(before.last().last()) == document(item) {
            let (init, last) = (before.drop_last(), before.last());
            assert(before =~= init.push(last));
            init.lemma_flatten_push(last);
            init.lemma_flatten_push(last.push(item));
            assert(init.flatten() + last.push(item) =~= (init.flatten() + last).push(item));
            assert(before[before.len() - 1][last.len() - 1] == last.last());
            assert forall|g: int, i: int|
                0 <= g < all.len() && 0 <= i < all[g].len() implies document(
                #[trigger] all[g][i],
            ) == document(all[g][0]) by {
                assert(all[g][0] == before[g][0]);
                if g < init.len() {
                    assert(all[g][i] == before[g][i]);
                } else if i < last.len() {
                    assert(all[g][i] == before[g][i]);
                }
            }
            assert forall|g: int| 0 < g < all.len() implies document(#[trigger] all[g][0])
                != document(all[g - 1][0]) by {
                assert(all[g][0] == before[g][0]);
                assert(all[g - 1][0] == before[g - 1][0]);
            }
        } else {
            before.lemma_flatten_push(seq![item]);
            assert(before.flatten() + seq![item] =~= items);
            assert forall|g: int, i: int|
                0 <= g < all.len() && 0 <= i < all[g].len() implies document(
                #[trigger] all[g][i],
            ) == document(all[g][0]) by {
                if g < before.len() {
                    assert(all[g][i] == before[g][i]);
                }
            }
            assert forall|g: int| 0 < g < all.len() implies document(#[trigger] all[g][0])
                != document(all[g - 1][0]) by {
                if g < before.len() {
                    assert(all[g][0] == before[g][0]);
                } else {
                    let last = before.last();
                    assert(before[g - 1][last.len() - 1] == last.last());
                }
            }
        }
    } else {
        assert(all.flatten() =~= items);
    }
}

/// The groups of sorted items belong to ever greater documents.
pub proof fn lemma_runs_increasing<A>(items: Seq<A>, document: spec_fn(A) -> DocumentId)
    requires
        sorted_by_document(items, document),
    ensures
        forall|g: int, h: int|
            0 <= g < h < runs(items, document).len() ==> document(
                #[trigger] runs(items, document)[g][0],
            ) < document(#[trigger] runs(items, document)[h][0]),
{
    let groups = runs(items, document);
    lemma_runs(items, document);
    assert forall|g: int, h: int| 0 <= g < h < groups.len() implies document(
        #[trigger] groups[g][0],
    ) < document(#[trigger] groups[h][0]) by {
        lemma_groups_increasing(groups, items, document, g, h);
    }
}

/// A group of sorted items belongs to a greater document than a group before it.
proof fn lemma_groups_increasing<A>(
    groups: Seq<Seq<A>>,
    items: Seq<A>,
    document: spec_fn(A) -> DocumentId,
    g: int,
    h: int,
)
    requires
        sorted_by_document(items, document),
        groups == runs(items, document),
        0 <= g < h < groups.len(),
    ensures
        document(groups[g][0]) < document(groups[h][0]),
    decreases h - g,
{
    lemma_runs(items, document);
    if g + 1 < h {
        lemma_groups_increasing(groups, items, document, g, h - 1);
    }
    lemma_flatten_piece(groups, h - 1);
    lemma_flatten_piece(groups, h);
    let (i, j) = (
        groups.take(h - 1).flatten().len() as int,
        groups.take(h).flatten().len() as int,
    );
    assert(items.subrange(i, i + groups[h - 1].len())[0] == items[i]);
    assert(items.subrange(j, j + groups[h].len())[0] == items[j]);
    assert(document(items[i]) <= document(items[j]));
    assert(document(groups[h][0]) != document(groups[h - 1][0]));
}

/// Group `g` stands in the items right behind the groups before it.
pub proof fn lemma_flatten_piece<A>(groups: Seq<Seq<A>>, g: int)
    requires
        0 <= g < groups.len(),
    ensures
        groups.take(g).flatten().len() + groups[g].len() <= groups.flatten().len(),
        groups.flatten().subrange(
            groups.take(g).flatten().len() as int,
            groups.take(g).flatten().len() + groups[g].len() as int,
        ) == groups[g],
        groups.take(g + 1).flatten() == groups.take(g).flatten() + groups[g],
{
    let (head, tail) = (groups.take(g), groups.skip(g));
    assert(groups =~= head + tail);
    vstd::seq_lib::lemma_flatten_concat(head, tail);
    assert(tail.flatten() == tail.first() + tail.drop_first().flatten());
    assert(groups.flatten().subrange(
        head.flatten().len() as int,
        head.flatten().len() + groups[g].len() as int,
    ) =~= groups[g]);
    assert(groups.take(g + 1) =~= head.push(groups[g]));
    head.lemma_flatten_push(groups[g]);
}

/// Where an item of several sequences put together comes from.
pub proof fn lemma_flatten_origin<A>(pieces: Seq<Seq<A>>, m: int) -> (origin: (int, int))
    requires
        0 <= m < pieces.flatten().len(),
    ensures
        0 <= origin.0 < pieces.len(),
        0 <= origin.1 < pieces[origin.0].len(),
        pieces[origin.0][origin.1] == pieces.flatten()[m],
    decreases pieces.len(),
{
    if pieces.len() == 0 {
        assert(pieces.flatten() =~= Seq::empty());
        (0, 0)
    } else {
        let rest = pieces.drop_last();
        let last = pieces.last();
        rest.lemma_flatten_push(last);
        assert(rest.push(last) =~= pieces);
        if m < rest.flatten().len() {
            let origin = lemma_flatten_origin(rest, m);
            assert(rest[origin.0] == pieces[origin.0]);
            origin
        } else {
            (pieces.len() - 1, m - rest.flatten().len())
        }
    }
}

/// Whether the documents of the positions never decrease.
pub fn is_sorted_by_document(indexes: &[DocIndex]) -> (sorted: bool)
    ensures
        sorted == sorted_by_document(indexes@, index_document()),
{
    let mut i: usize = 1;
    while i < indexes.len()
        invariant
            1 <= i,
            forall|a: int, b: int|
                0 <= a <= b < i && b < indexes@.len() ==> (#[trigger] indexes@[a]).document_id <= (
                #[trigger] indexes@[b]).document_id,
        decreases indexes@.len() - i,
    {
        if indexes[i - 1].document_id > indexes[i].document_id {
            assert(!(index_document()(indexes@[i - 1]) <= index_document()(indexes@[i as int])));
            return false;
        }
        i = i + 1;
    }
    true
}

} // verus!
