//! Bucket sort: documents are ranked criterion after criterion, and only as far as
//! the requested range needs it.

use std::ops::Range;

use slice_group_by::GroupByMut;
use vstd::prelude::*;

use crate::criterion::{
    all_tie, criteria_rank_documents, one_more_criterion, ranks_before, tie, Criterion,
};
use crate::documents::{comes_from, ids, DocumentId, RawDocument};
use crate::grouping::{lemma_map_multiset, lemma_offset_monotone, lemma_same_items, offset};

verus! {

/// Calls `sort_unstable_by` of a std slice with [`Criterion::evaluate`]: the documents stay the
/// same ones, in an order in which none comes before one that stands ahead of it.
/// The order of documents that tie is left open.
#[verifier::external_body]
fn sort_by_criterion<C: Criterion>(
    criterion: &C,
    context: &C::Context,
    documents: &mut [RawDocument<C::Matches>],
)
    requires
        forall|i: int|
            0 <= i < old(documents)@.len() ==> criterion.prepared(
                *context,
                #[trigger] old(documents)@[i],
            ),
    ensures
        final(documents)@.to_multiset() == old(documents)@.to_multiset(),
        forall|i: int, j: int|
            0 <= i < j < final(documents)@.len() ==> !criterion.before(
                (#[trigger] final(documents)@[j]).id,
                (#[trigger] final(documents)@[i]).id,
            ),
{
    documents.sort_unstable_by(|a, b| criterion.evaluate(context, a, b))
}

/// Calls `binary_group_by_mut` of `slice_group_by` with [`Criterion::eq`] and keeps the lengths
/// of the groups: on documents that the criterion has sorted, the groups cover all of them,
/// documents of one group tie and documents of two groups do not. Nothing moves.
#[verifier::external_body]
fn tie_group_lens<C: Criterion>(
    criterion: &C,
    context: &C::Context,
    documents: &mut [RawDocument<C::Matches>],
) -> (lens: Vec<usize>)
    requires
        forall|i: int|
            0 <= i < old(documents)@.len() ==> criterion.prepared(
                *context,
                #[trigger] old(documents)@[i],
            ),
        forall|i: int, j: int|
            0 <= i < j < old(documents)@.len() ==> !criterion.before(
                (#[trigger] old(documents)@[j]).id,
                (#[trigger] old(documents)@[i]).id,
            ),
    ensures
        final(documents)@ == old(documents)@,
        forall|g: int| 0 <= g < lens@.len() ==> #[trigger] lens@[g] > 0,
        offset(lens@, lens@.len() as int) == old(documents)@.len(),
        forall|g: int, i: int, j: int|
            #![trigger offset(lens@, g), old(documents)@[i], old(documents)@[j]]
            0 <= g < lens@.len() && offset(lens@, g) <= i < offset(lens@, g + 1) && offset(lens@, g)
                <= j < offset(lens@, g + 1) ==> tie(
                *criterion,
                old(documents)@[i].id,
                old(documents)@[j].id,
            ),
        forall|g: int, i: int, j: int|
            #![trigger offset(lens@, g), old(documents)@[i], old(documents)@[j]]
            0 <= g <= lens@.len() && 0 <= i < offset(lens@, g) <= j < old(documents)@.len()
                ==> !tie(*criterion, old(documents)@[i].id, old(documents)@[j].id),
{
    documents.binary_group_by_mut(|a, b| criterion.eq(context, a, b)).map(|g| g.len()).collect()
}

/// The same documents stand between `start` and `end`, and nothing moved elsewhere.
pub open spec fn permuted(
    before: Seq<DocumentId>,
    after: Seq<DocumentId>,
    start: int,
    end: int,
) -> bool {
    &&& before.len() == after.len()
    &&& before.subrange(start, end).to_multiset() == after.subrange(start, end).to_multiset()
    &&& forall|i: int|
        0 <= i < before.len() && !(start <= i < end) ==> #[trigger] after[i] == before[i]
}

/// Documents cut into groups of these lengths: those of one group tie,
/// those of an earlier group come before those of a later one.
pub open spec fn cut_by<C: Criterion>(
    criterion: C,
    sorted: Seq<DocumentId>,
    lens: Seq<usize>,
) -> bool {
    &&& forall|g: int| 0 <= g < lens.len() ==> #[trigger] lens[g] > 0
    &&& offset(lens, lens.len() as int) == sorted.len()
    &&& forall|g: int, i: int, j: int|
        #![trigger offset(lens, g), sorted[i], sorted[j]]
        0 <= g < lens.len() && offset(lens, g) <= i < offset(lens, g + 1) && offset(lens, g) <= j
            < offset(lens, g + 1) ==> tie(criterion, sorted[i], sorted[j])
    &&& forall|g: int, i: int, j: int|
        #![trigger offset(lens, g), sorted[i], sorted[j]]
        0 <= g <= lens.len() && 0 <= i < offset(lens, g) <= j < sorted.len() ==> criterion.before(
            sorted[i],
            sorted[j],
        )
}

/// Whether a document is one of these, as preparing it may have left it.
pub open spec fn descends<C: Criterion>(
    document: RawDocument<C::Matches>,
    documents: Seq<RawDocument<C::Matches>>,
) -> bool {
    comes_from(document, documents, |a: C::Matches, b: C::Matches| C::carried(a, b))
}

/// Whether all documents are some of those before, as preparing them may have left them.
pub open spec fn all_descend<C: Criterion>(
    before: Seq<RawDocument<C::Matches>>,
    after: Seq<RawDocument<C::Matches>>,
) -> bool {
    forall|i: int| 0 <= i < after.len() ==> descends::<C>(#[trigger] after[i], before)
}

/// Preparing documents in two steps is preparing them.
proof fn lemma_descent_chain<C: Criterion>(
    before: Seq<RawDocument<C::Matches>>,
    between: Seq<RawDocument<C::Matches>>,
    after: Seq<RawDocument<C::Matches>>,
)
    requires
        all_descend::<C>(before, between),
        all_descend::<C>(between, after),
    ensures
        all_descend::<C>(before, after),
{
    assert forall|i: int| 0 <= i < after.len() implies descends::<C>(
        #[trigger] after[i],
        before,
    ) by {
        let k = choose|k: int|
            0 <= k < between.len() && (#[trigger] between[k]).id == after[i].id && C::carried(
                between[k].matches,
                after[i].matches,
            );
        let l = choose|l: int|
            0 <= l < before.len() && (#[trigger] before[l]).id == between[k].id && C::carried(
                before[l].matches,
                between[k].matches,
            );
        C::carried_is_a_preorder(before[l].matches, between[k].matches, after[i].matches);
        assert(before[l].id == after[i].id);
    }
}

/// Documents are some of those that hold the same ones.
proof fn lemma_descent_of_same<C: Criterion>(
    before: Seq<RawDocument<C::Matches>>,
    after: Seq<RawDocument<C::Matches>>,
)
    requires
        after.to_multiset() == before.to_multiset(),
    ensures
        all_descend::<C>(before, after),
{
    assert forall|i: int| 0 <= i < after.len() implies descends::<C>(
        #[trigger] after[i],
        before,
    ) by {
        let k = lemma_same_items(after, before, i);
        C::carried_is_a_preorder(after[i].matches, after[i].matches, after[i].matches);
        assert(before[k].id == after[i].id);
    }
}

/// Whether a criterion has prepared a document, and it is as preparing it further may have left it.
pub open spec fn was_prepared<C: Criterion>(
    criterion: C,
    document: RawDocument<C::Matches>,
) -> bool {
    exists|context: C::Context, ready: RawDocument<C::Matches>| #[trigger]
        criterion.prepared(context, ready) && ready.id == document.id && C::carried(
            ready.matches,
            document.matches,
        )
}

/// Whether a criterion can succeed in preparing documents.
pub open spec fn can_prepare<C: Criterion>(
    criterion: C,
    before: C::Context,
    documents: Seq<RawDocument<C::Matches>>,
    after: C::Context,
) -> bool {
    exists|ready: Seq<RawDocument<C::Matches>>| #[trigger]
        criterion.prepares(before, documents, after, ready)
}

/// Whether a criterion succeeded in preparing some of the documents, which are not none, while the
/// context advanced from `before` to `after`.
pub open spec fn took_part<C: Criterion>(
    criterion: C,
    documents: Seq<RawDocument<C::Matches>>,
    before: C::Context,
    after: C::Context,
) -> bool {
    exists|start: C::Context, group: Seq<RawDocument<C::Matches>>, end: C::Context|
        {
            &&& #[trigger] can_prepare(criterion, start, group, end)
            &&& group.len() > 0
            &&& all_descend::<C>(documents, group)
            &&& C::advanced(before, start)
            &&& C::advanced(end, after)
        }
}

/// Whether a criterion succeeded in preparing just these documents in the context `before`, which
/// then advanced to `after`.
pub open spec fn prepared_first<C: Criterion>(
    criterion: C,
    documents: Seq<RawDocument<C::Matches>>,
    before: C::Context,
    after: C::Context,
) -> bool {
    exists|end: C::Context| #[trigger]
        can_prepare(criterion, before, documents, end) && C::advanced(end, after)
}

/// Whether a criterion failed with `error` to prepare some of the documents, after the context
/// advanced from `before`, and left it as `after`.
pub open spec fn failed_on<C: Criterion>(
    criterion: C,
    documents: Seq<RawDocument<C::Matches>>,
    before: C::Context,
    after: C::Context,
    error: C::Error,
) -> bool {
    exists|start: C::Context, group: Seq<RawDocument<C::Matches>>|
        {
            &&& #[trigger] criterion.fails(start, group, after, error)
            &&& all_descend::<C>(documents, group)
            &&& C::advanced(before, start)
        }
}

/// Whether each of the criteria has prepared each of the first `len` documents.
pub open spec fn prepared_by<C: Criterion>(
    criteria: Seq<C>,
    documents: Seq<RawDocument<C::Matches>>,
    len: int,
) -> bool {
    forall|k: int, i: int|
        0 <= k < criteria.len() && 0 <= i < len ==> was_prepared(
            #[trigger] criteria[k],
            #[trigger] documents[i],
        )
}

/// A document that descends from documents that a criterion has prepared was prepared by it.
proof fn lemma_descent_of_prepared<C: Criterion>(
    criterion: C,
    document: RawDocument<C::Matches>,
    before: Seq<RawDocument<C::Matches>>,
)
    requires
        descends::<C>(document, before),
        forall|i: int| 0 <= i < before.len() ==> was_prepared(criterion, #[trigger] before[i]),
    ensures
        was_prepared(criterion, document),
{
    let k = choose|k: int|
        0 <= k < before.len() && (#[trigger] before[k]).id == document.id && C::carried(
            before[k].matches,
            document.matches,
        );
    assert(was_prepared(criterion, before[k]));
    let (context, ready) = choose|context: C::Context, ready: RawDocument<C::Matches>| #[trigger]
        criterion.prepared(context, ready) && ready.id == before[k].id && C::carried(
            ready.matches,
            before[k].matches,
        );
    C::carried_is_a_preorder(ready.matches, before[k].matches, document.matches);
}

/// Prepares and sorts documents by one criterion, and returns the lengths of the groups
/// of documents that tie.
fn sort_ties<C: Criterion>(
    criterion: &C,
    context: &mut C::Context,
    documents: &mut [RawDocument<C::Matches>],
) -> (result: Result<Vec<usize>, C::Error>)
    ensures
        ids(final(documents)@).to_multiset() == ids(old(documents)@).to_multiset(),
        all_descend::<C>(old(documents)@, final(documents)@),
        result matches Err(error) ==> criterion.fails(
            *old(context),
            old(documents)@,
            *final(context),
            error,
        ),
        result is Ok ==> C::advanced(*old(context), *final(context)) && can_prepare(
            *criterion,
            *old(context),
            old(documents)@,
            *final(context),
        ),
        result matches Ok(lens) ==> cut_by(*criterion, ids(final(documents)@), lens@),
        result is Ok ==> forall|i: int|
            0 <= i < final(documents)@.len() ==> was_prepared(
                *criterion,
                #[trigger] final(documents)@[i],
            ),
{
    let ghost before = documents@;
    let outcome = criterion.prepare(context, documents);
    let ghost ready = documents@;
    assert(all_descend::<C>(before, ready));
    if let Err(error) = outcome {
        return Err(error);
    }
    sort_by_criterion(criterion, context, documents);
    let ghost sorted = documents@;
    proof {
        lemma_map_multiset(sorted, ready, |document: RawDocument<C::Matches>| document.id);
        lemma_descent_of_same::<C>(ready, sorted);
        lemma_descent_chain::<C>(before, ready, sorted);
        assert forall|i: int| 0 <= i < sorted.len() implies criterion.prepared(
            *context,
            #[trigger] sorted[i],
        ) by {
            let j = lemma_same_items(sorted, ready, i);
            assert(criterion.prepared(*context, ready[j]));
        }
        assert forall|i: int| 0 <= i < sorted.len() implies was_prepared(
            *criterion,
            #[trigger] sorted[i],
        ) by {
            let document = sorted[i];
            C::carried_is_a_preorder(document.matches, document.matches, document.matches);
            assert(criterion.prepared(*context, document));
        }
    }
    let lens = tie_group_lens(criterion, context, documents);
    proof {
        assert forall|g: int, i: int, j: int|
            #![trigger offset(lens@, g), ids(sorted)[i], ids(sorted)[j]]
            0 <= g <= lens@.len() && 0 <= i < offset(lens@, g) <= j
                < sorted.len() implies criterion.before(ids(sorted)[i], ids(sorted)[j]) by {
            assert(!tie(*criterion, sorted[i].id, sorted[j].id));
            assert(!criterion.before(sorted[j].id, sorted[i].id));
        }
        assert forall|g: int, i: int, j: int|
            #![trigger offset(lens@, g), ids(sorted)[i], ids(sorted)[j]]
            0 <= g < lens@.len() && offset(lens@, g) <= i < offset(lens@, g + 1) && offset(lens@, g)
                <= j < offset(lens@, g + 1) implies tie(
            *criterion,
            ids(sorted)[i],
            ids(sorted)[j],
        ) by {
            lemma_offset_monotone(lens@, 0, g);
            lemma_offset_monotone(lens@, g + 1, lens@.len() as int);
            assert(tie(*criterion, sorted[i].id, sorted[j].id));
        }
    }
    Ok(lens)
}

/// Prepares and sorts the documents between `start` and `end` by one criterion,
/// and returns the lengths of the groups of documents that tie.
fn sort_group<C: Criterion>(
    documents: &mut Vec<RawDocument<C::Matches>>,
    start: usize,
    end: usize,
    criterion: &C,
    context: &mut C::Context,
) -> (result: Result<Vec<usize>, C::Error>)
    requires
        start <= end <= old(documents)@.len(),
    ensures
        permuted(ids(old(documents)@), ids(final(documents)@), start as int, end as int),
        all_descend::<C>(old(documents)@, final(documents)@),
        all_descend::<C>(
            old(documents)@.subrange(start as int, end as int),
            final(documents)@.subrange(start as int, end as int),
        ),
        forall|i: int|
            0 <= i < old(documents)@.len() && !(start <= i < end)
                ==> #[trigger] final(documents)@[i] == old(documents)@[i],
        result matches Err(error) ==> criterion.fails(
            *old(context),
            old(documents)@.subrange(start as int, end as int),
            *final(context),
            error,
        ),
        result is Ok ==> C::advanced(*old(context), *final(context)) && can_prepare(
            *criterion,
            *old(context),
            old(documents)@.subrange(start as int, end as int),
            *final(context),
        ),
        result matches Ok(lens) ==> cut_by(
            *criterion,
            ids(final(documents)@).subrange(start as int, end as int),
            lens@,
        ),
        result is Ok ==> forall|i: int|
            start <= i < end ==> was_prepared(*criterion, #[trigger] final(documents)@[i]),
{
    let ghost before = documents@;
    let (head, tail) = documents.as_mut_slice().split_at_mut(start);
    let (group, rest) = tail.split_at_mut(end - start);
    let ghost (h, g, r) = (head@, group@, rest@);
    let result = sort_ties(criterion, context, group);
    let ghost sorted = group@;
    proof {
        ids(g).to_multiset_ensures();
        ids(sorted).to_multiset_ensures();
        assert(before =~= h + g + r);
        assert(documents@ =~= h + sorted + r);
        assert(before.subrange(start as int, end as int) =~= g);
        assert(documents@.subrange(start as int, end as int) =~= sorted);
        assert(forall|i: int|
            start <= i < end ==> #[trigger] documents@[i] == sorted[i - start]);
        assert(ids(before).subrange(start as int, end as int) =~= ids(g));
        assert(ids(documents@).subrange(start as int, end as int) =~= ids(sorted));
        assert forall|i: int| 0 <= i < documents@.len() implies descends::<C>(
            #[trigger] documents@[i],
            before,
        ) by {
            let now = documents@[i];
            if start <= i < end {
                assert(now == sorted[i - start]);
                assert(descends::<C>(sorted[i - start], g));
                let k = choose|k: int|
                    0 <= k < g.len() && (#[trigger] g[k]).id == now.id && C::carried(
                        g[k].matches,
                        now.matches,
                    );
                assert(before[start + k] == g[k]);
            } else {
                C::carried_is_a_preorder(now.matches, now.matches, now.matches);
                assert(before[i] == now);
            }
        }
    }
    result
}

/// How many documents, from the first one on, the groups cover.
pub open spec fn covered(groups: Seq<(usize, usize)>) -> int {
    if groups.len() == 0 {
        0
    } else {
        groups.last().1 as int
    }
}

/// The groups follow each other, from the first document on.
pub open spec fn contiguous(groups: Seq<(usize, usize)>, len: int) -> bool {
    forall|g: int|
        0 <= g < groups.len() ==> covered(groups.take(g)) == (#[trigger] groups[g]).0 <= groups[g].1
            <= len
}

/// From group `from` on: documents of one group tie, and rank before all documents
/// that stand after the group.
pub open spec fn separated<C: Criterion>(
    criteria: Seq<C>,
    ranked: Seq<DocumentId>,
    groups: Seq<(usize, usize)>,
    from: int,
) -> bool {
    &&& forall|g: int, i: int, j: int|
        #![trigger groups[g], ranked[i], ranked[j]]
        from <= g < groups.len() && groups[g].0 <= i < groups[g].1 && groups[g].0 <= j < groups[g].1
            ==> all_tie(criteria, ranked[i], ranked[j])
    &&& forall|g: int, i: int, j: int|
        #![trigger groups[g], ranked[i], ranked[j]]
        from <= g < groups.len() && groups[g].0 <= i < groups[g].1 <= j < ranked.len()
            ==> ranks_before(criteria, ranked[i], ranked[j])
}

/// Where the document that stands at `i` now stood before.
proof fn lemma_permuted_origin(
    before: Seq<DocumentId>,
    after: Seq<DocumentId>,
    start: int,
    end: int,
    i: int,
) -> (k: int)
    requires
        0 <= start <= end <= before.len(),
        permuted(before, after, start, end),
        0 <= i < after.len(),
    ensures
        0 <= k < before.len(),
        before[k] == after[i],
        start <= i < end <==> start <= k < end,
        !(start <= i < end) ==> k == i,
{
    if start <= i < end {
        let k = lemma_same_items(
            after.subrange(start, end),
            before.subrange(start, end),
            i - start,
        );
        assert(before[start + k] == after[i]);
        start + k
    } else {
        i
    }
}

/// Sorting group `g` of the documents leaves what earlier and later groups promise intact,
/// and what group `g` itself promised before.
proof fn lemma_permuted_separated<C: Criterion>(
    criteria: Seq<C>,
    before: Seq<DocumentId>,
    after: Seq<DocumentId>,
    groups: Seq<(usize, usize)>,
    from: int,
    start: int,
    end: int,
)
    requires
        0 <= start <= end <= before.len(),
        permuted(before, after, start, end),
        separated(criteria, before, groups, from),
        0 <= from,
        forall|g: int|
            from <= g < groups.len() ==> (#[trigger] groups[g]).1 <= start || (groups[g].0 == start
                && groups[g].1 == end) || end <= groups[g].0 <= groups[g].1,
        forall|g: int| from <= g < groups.len() ==> (#[trigger] groups[g]).1 <= before.len(),
    ensures
        separated(criteria, after, groups, from),
{
    assert forall|g: int, i: int, j: int|
        #![trigger groups[g], after[i], after[j]]
        from <= g < groups.len() && groups[g].0 <= i < groups[g].1 && groups[g].0 <= j
            < groups[g].1 implies all_tie(criteria, after[i], after[j]) by {
        let a = lemma_permuted_origin(before, after, start, end, i);
        let b = lemma_permuted_origin(before, after, start, end, j);
        assert(all_tie(criteria, before[a], before[b]));
    }
    assert forall|g: int, i: int, j: int|
        #![trigger groups[g], after[i], after[j]]
        from <= g < groups.len() && groups[g].0 <= i < groups[g].1 <= j
            < after.len() implies ranks_before(criteria, after[i], after[j]) by {
        let a = lemma_permuted_origin(before, after, start, end, i);
        let b = lemma_permuted_origin(before, after, start, end, j);
        assert(ranks_before(criteria, before[a], before[b]));
    }
}

/// Documents that moved only among themselves are still the same ones.
proof fn lemma_permuted_multiset(
    before: Seq<DocumentId>,
    after: Seq<DocumentId>,
    start: int,
    end: int,
)
    requires
        0 <= start <= end <= before.len(),
        permuted(before, after, start, end),
    ensures
        after.to_multiset() == before.to_multiset(),
{
    broadcast use vstd::seq_lib::lemma_multiset_commutative;

    let n = before.len() as int;
    assert(before =~= before.subrange(0, start) + before.subrange(start, end) + before.subrange(
        end,
        n,
    ));
    assert(after =~= after.subrange(0, start) + after.subrange(start, end) + after.subrange(
        end,
        n,
    ));
    assert(before.subrange(0, start) =~= after.subrange(0, start));
    assert(before.subrange(end, n) =~= after.subrange(end, n));
}

/// Groups that follow each other do not overlap.
proof fn lemma_contiguous_order(groups: Seq<(usize, usize)>, len: int, g: int)
    requires
        contiguous(groups, len),
        0 <= g <= groups.len(),
    ensures
        forall|h: int| 0 <= h < g ==> (#[trigger] groups[h]).1 <= covered(groups.take(g)),
        forall|h: int|
            g <= h < groups.len() ==> (#[trigger] groups[h]).0 >= covered(groups.take(g)),
        forall|h: int|
            g < h < groups.len() ==> (#[trigger] groups[h]).0 >= groups[g].1,
    decreases groups.len(),
{
    assert forall|h: int| 0 <= h < g implies (#[trigger] groups[h]).1 <= covered(
        groups.take(g),
    ) by {
        lemma_contiguous_chain(groups, len, h, g);
    }
    assert forall|h: int| g <= h < groups.len() implies (#[trigger] groups[h]).0 >= covered(
        groups.take(g),
    ) by {
        lemma_contiguous_chain(groups, len, g - 1, h);
    }
    assert forall|h: int| g < h < groups.len() implies (#[trigger] groups[h]).0 >= groups[g].1 by {
        lemma_contiguous_chain(groups, len, g, h);
    }
}

/// What the groups up to one cover, later groups cover too.
proof fn lemma_contiguous_chain(groups: Seq<(usize, usize)>, len: int, g: int, h: int)
    requires
        contiguous(groups, len),
        -1 <= g < h <= groups.len(),
    ensures
        g >= 0 ==> groups[g].1 <= covered(groups.take(h)),
        covered(groups.take(g + 1)) <= covered(groups.take(h)),
    decreases h - g,
{
    if g >= 0 {
        assert(groups.take(g + 1).last() == groups[g]);
    }
    if g + 1 < h {
        lemma_contiguous_chain(groups, len, g, h - 1);
        assert(groups.take(h).last() == groups[h - 1]);
        assert(covered(groups.take(h - 1)) == groups[h - 1].0);
    }
}

/// A group of documents that tie on one more criterion joins the groups before it.
proof fn lemma_push_group<C: Criterion>(
    criteria: Seq<C>,
    n: int,
    ranked: Seq<DocumentId>,
    refined: Seq<(usize, usize)>,
    start: int,
    end: int,
    lens: Seq<usize>,
    s: int,
    group: (usize, usize),
)
    requires
        0 <= n < criteria.len(),
        0 <= start <= end <= ranked.len(),
        separated(criteria.take(n), ranked, seq![(start as usize, end as usize)], 0),
        end <= usize::MAX,
        cut_by(criteria[n], ranked.subrange(start, end), lens),
        contiguous(refined, ranked.len() as int),
        separated(criteria.take(n + 1), ranked, refined, 0),
        0 <= s < lens.len(),
        covered(refined) == start + offset(lens, s),
        group.0 == start + offset(lens, s),
        group.1 == start + offset(lens, s + 1),
    ensures
        contiguous(refined.push(group), ranked.len() as int),
        separated(criteria.take(n + 1), ranked, refined.push(group), 0),
        covered(refined.push(group)) == start + offset(lens, s + 1),
{
    let longer = refined.push(group);
    let cut = ranked.subrange(start, end);
    let whole = seq![(start as usize, end as usize)];
    assert(whole[0] == (start as usize, end as usize));
    lemma_offset_monotone(lens, 0, s);
    lemma_offset_monotone(lens, s, s + 1);
    lemma_offset_monotone(lens, s + 1, lens.len() as int);
    assert forall|g: int| 0 <= g < longer.len() implies covered(longer.take(g)) == (
    #[trigger] longer[g]).0 <= longer[g].1 <= ranked.len() by {
        if g < refined.len() {
            assert(longer.take(g) =~= refined.take(g));
            assert(longer[g] == refined[g]);
        } else {
            assert(longer.take(g) =~= refined);
        }
    }
    assert forall|g: int, i: int, j: int|
        #![trigger longer[g], ranked[i], ranked[j]]
        0 <= g < longer.len() && longer[g].0 <= i < longer[g].1 && longer[g].0 <= j
            < longer[g].1 implies all_tie(criteria.take(n + 1), ranked[i], ranked[j]) by {
        if g < refined.len() {
            assert(longer[g] == refined[g]);
        } else {
            assert(cut[i - start] == ranked[i] && cut[j - start] == ranked[j]);
            assert(tie(criteria[n], cut[i - start], cut[j - start]));
            assert(all_tie(criteria.take(n), ranked[i], ranked[j]));
            one_more_criterion(criteria, n, ranked[i], ranked[j]);
        }
    }
    assert forall|g: int, i: int, j: int|
        #![trigger longer[g], ranked[i], ranked[j]]
        0 <= g < longer.len() && longer[g].0 <= i < longer[g].1 <= j
            < ranked.len() implies ranks_before(criteria.take(n + 1), ranked[i], ranked[j]) by {
        if g < refined.len() {
            assert(longer[g] == refined[g]);
        } else {
            one_more_criterion(criteria, n, ranked[i], ranked[j]);
            if j < end {
                assert(cut[i - start] == ranked[i] && cut[j - start] == ranked[j]);
                assert(offset(lens, s + 1) <= j - start);
                assert(criteria[n].before(cut[i - start], cut[j - start]));
                assert(all_tie(criteria.take(n), ranked[i], ranked[j]));
            } else {
                assert(whole[0].0 <= i < whole[0].1 <= j);
                assert(ranks_before(criteria.take(n), ranked[i], ranked[j]));
            }
        }
    }
}

/// While the groups before `g` do not reach the end of the range, the groups that do are `g` and
/// later ones.
proof fn lemma_behind_range(groups: Seq<(usize, usize)>, len: int, g: int, range_end: int)
    requires
        contiguous(groups, len),
        0 <= g <= groups.len(),
        covered(groups.take(g)) < range_end || covered(groups.take(g)) == 0,
    ensures
        forall|h: int|
            0 <= h < groups.len() && groups[h].0 < groups[h].1 && range_end <= groups[h].1 ==> g
                <= h && groups[g].1 <= (#[trigger] groups[h]).1,
{
    assert forall|h: int|
        0 <= h < groups.len() && groups[h].0 < groups[h].1 && range_end <= groups[h].1 implies g
        <= h && groups[g].1 <= (#[trigger] groups[h]).1 by {
        if h < g {
            lemma_contiguous_chain(groups, len, h, g);
        } else if g < h {
            lemma_contiguous_order(groups, len, g);
        }
    }
}

/// Sorting a group of prepared documents leaves prepared ones.
proof fn lemma_group_prepared<C: Criterion>(
    criteria: Seq<C>,
    before: Seq<RawDocument<C::Matches>>,
    after: Seq<RawDocument<C::Matches>>,
    start: int,
    end: int,
    len: int,
)
    requires
        0 <= start <= end <= before.len() == after.len(),
        end <= len <= before.len(),
        prepared_by(criteria, before, len),
        all_descend::<C>(before.subrange(start, end), after.subrange(start, end)),
        forall|i: int|
            0 <= i < before.len() && !(start <= i < end) ==> #[trigger] after[i] == before[i],
    ensures
        prepared_by(criteria, after, len),
{
    assert forall|k: int, i: int| 0 <= k < criteria.len() && 0 <= i < len implies was_prepared(
        #[trigger] criteria[k],
        #[trigger] after[i],
    ) by {
        if start <= i < end {
            let group = before.subrange(start, end);
            assert(after.subrange(start, end)[i - start] == after[i]);
            assert forall|j: int| 0 <= j < group.len() implies was_prepared(
                criteria[k],
                #[trigger] group[j],
            ) by {
                assert(was_prepared(criteria[k], before[start + j]));
            }
            lemma_descent_of_prepared(criteria[k], after[i], group);
        } else {
            assert(was_prepared(criteria[k], before[i]));
        }
    }
}

/// One more criterion has prepared the first documents.
proof fn lemma_one_more_prepared<C: Criterion>(
    criteria: Seq<C>,
    n: int,
    documents: Seq<RawDocument<C::Matches>>,
    len: int,
    fewer: int,
)
    requires
        0 <= n < criteria.len(),
        fewer <= len,
        prepared_by(criteria.take(n), documents, len),
        forall|i: int| 0 <= i < fewer ==> was_prepared(criteria[n], #[trigger] documents[i]),
    ensures
        prepared_by(criteria.take(n + 1), documents, fewer),
{
    let longer = criteria.take(n + 1);
    assert forall|k: int, i: int| 0 <= k < longer.len() && 0 <= i < fewer implies was_prepared(
        #[trigger] longer[k],
        #[trigger] documents[i],
    ) by {
        if k < n {
            assert(criteria.take(n)[k] == longer[k]);
        }
    }
}

/// Adds the groups of documents that tie on one more criterion, out of a group that starts at
/// `start`, until enough documents are sorted, and says whether there are enough.
fn push_ties<C: Criterion>(
    refined: &mut Vec<(usize, usize)>,
    lens: &Vec<usize>,
    start: usize,
    range_end: usize,
    Ghost(end): Ghost<int>,
    Ghost(criteria): Ghost<Seq<C>>,
    Ghost(n): Ghost<int>,
    Ghost(ranked): Ghost<Seq<DocumentId>>,
) -> (enough: bool)
    requires
        0 <= n < criteria.len(),
        start <= end <= ranked.len() <= usize::MAX,
        separated(criteria.take(n), ranked, seq![(start, end as usize)], 0),
        cut_by(criteria[n], ranked.subrange(start as int, end), lens@),
        contiguous(old(refined)@, ranked.len() as int),
        separated(criteria.take(n + 1), ranked, old(refined)@, 0),
        covered(old(refined)@) == start,
        start < range_end || start == 0,
    ensures
        contiguous(final(refined)@, ranked.len() as int),
        separated(criteria.take(n + 1), ranked, final(refined)@, 0),
        covered(final(refined)@) <= end,
        old(refined)@.len() > 0 ==> final(refined)@.len() > 0 && final(refined)@[0] == old(
            refined,
        )@[0],
        old(refined)@.len() == 0 && start < end ==> final(refined)@.len() > 0
            && final(refined)@[0].1 > 0,
        enough ==> covered(final(refined)@) >= range_end,
        !enough ==> covered(final(refined)@) == end && (end < range_end || end == 0),
{
    let mut documents_seen = start;
    let mut s: usize = 0;
    while s < lens.len()
        invariant
            0 <= n < criteria.len(),
            s <= lens@.len(),
            start <= end <= ranked.len() <= usize::MAX,
            separated(criteria.take(n), ranked, seq![(start, end as usize)], 0),
            cut_by(criteria[n], ranked.subrange(start as int, end), lens@),
            contiguous(refined@, ranked.len() as int),
            separated(criteria.take(n + 1), ranked, refined@, 0),
            covered(refined@) == documents_seen == start + offset(lens@, s as int),
            documents_seen < range_end || documents_seen == 0,
            old(refined)@.len() > 0 ==> refined@.len() > 0 && refined@[0] == old(refined)@[0],
            old(refined)@.len() == 0 ==> (refined@.len() > 0 <==> s > 0),
            old(refined)@.len() == 0 && s > 0 ==> refined@[0].1 > 0,
        decreases lens@.len() - s,
    {
        proof {
            lemma_offset_monotone(lens@, 0, s as int);
            lemma_offset_monotone(lens@, s + 1, lens@.len() as int);
        }
        let group = (documents_seen, documents_seen + lens[s]);
        proof {
            lemma_push_group(
                criteria,
                n,
                ranked,
                refined@,
                start as int,
                end,
                lens@,
                s as int,
                group,
            );
        }
        refined.push(group);
        documents_seen = documents_seen + lens[s];
        s = s + 1;
        if documents_seen >= range_end {
            return true;
        }
    }
    false
}

/// Sorts each group of documents that tie on the first `n` criteria by the next one, until
/// enough documents are sorted: what stands behind the first group that reaches the end of the
/// range is left as it is.
#[verifier::rlimit(60)]
#[verifier::spinoff_prover]
fn refine<C: Criterion>(
    documents: &mut Vec<RawDocument<C::Matches>>,
    groups: &Vec<(usize, usize)>,
    criteria: &Vec<C>,
    n: usize,
    range_end: usize,
    context: &mut C::Context,
) -> (result: Result<Vec<(usize, usize)>, C::Error>)
    requires
        n < criteria@.len(),
        contiguous(groups@, old(documents)@.len() as int),
        separated(criteria@.take(n as int), ids(old(documents)@), groups@, 0),
        covered(groups@) >= range_end || covered(groups@) == old(documents)@.len(),
        prepared_by(criteria@.take(n as int), old(documents)@, covered(groups@)),
        old(documents)@.len() > 0 ==> groups@.len() > 0 && groups@[0].1 > 0,
    ensures
        ids(final(documents)@).to_multiset() == ids(old(documents)@).to_multiset(),
        forall|g: int, i: int|
            #![trigger groups@[g], final(documents)@[i]]
            0 <= g < groups@.len() && groups@[g].0 < groups@[g].1 && range_end <= groups@[g].1 <= i
                < old(documents)@.len() ==> final(documents)@[i] == old(documents)@[i],
        all_descend::<C>(old(documents)@, final(documents)@),
        result matches Err(error) ==> failed_on(
            criteria@[n as int],
            old(documents)@,
            *old(context),
            *final(context),
            error,
        ),
        result matches Ok(refined) ==> {
            &&& contiguous(refined@, final(documents)@.len() as int)
            &&& separated(criteria@.take(n + 1), ids(final(documents)@), refined@, 0)
            &&& covered(refined@) >= range_end || covered(refined@) == final(documents)@.len()
            &&& prepared_by(criteria@.take(n + 1), final(documents)@, covered(refined@))
            &&& final(documents)@.len() > 0 ==> refined@.len() > 0 && refined@[0].1 > 0
            &&& C::advanced(*old(context), *final(context))
            &&& groups@.len() > 0 ==> prepared_first(
                criteria@[n as int],
                old(documents)@.subrange(groups@[0].0 as int, groups@[0].1 as int),
                *old(context),
                *final(context),
            )
        },
{
    let criterion = &criteria[n];
    let mut refined: Vec<(usize, usize)> = Vec::new();
    let mut g: usize = 0;
    proof {
        lemma_descent_of_same::<C>(documents@, documents@);
        C::advanced_is_a_preorder(*context, *context, *context);
    }
    while g < groups.len()
        invariant
            n < criteria@.len(),
            *criterion == criteria@[n as int],
            g <= groups@.len(),
            documents@.len() == old(documents)@.len(),
            ids(documents@).to_multiset() == ids(old(documents)@).to_multiset(),
            all_descend::<C>(old(documents)@, documents@),
            contiguous(groups@, documents@.len() as int),
            separated(criteria@.take(n as int), ids(documents@), groups@, g as int),
            contiguous(refined@, documents@.len() as int),
            separated(criteria@.take(n + 1), ids(documents@), refined@, 0),
            covered(refined@) == covered(groups@.take(g as int)),
            covered(refined@) < range_end || covered(refined@) == 0,
            prepared_by(criteria@.take(n as int), documents@, covered(groups@)),
            forall|i: int|
                0 <= i < covered(refined@) ==> was_prepared(*criterion, #[trigger] documents@[i]),
            forall|i: int|
                covered(refined@) <= i < documents@.len() ==> #[trigger] documents@[i]
                    == old(documents)@[i],
            documents@.len() > 0 ==> groups@.len() > 0 && groups@[0].1 > 0,
            documents@.len() > 0 && g > 0 ==> refined@.len() > 0 && refined@[0].1 > 0,
            g == 0 ==> refined@.len() == 0 && *context == *old(context),
            C::advanced(*old(context), *context),
            g > 0 ==> prepared_first(
                *criterion,
                old(documents)@.subrange(groups@[0].0 as int, groups@[0].1 as int),
                *old(context),
                *context,
            ),
        decreases groups@.len() - g,
    {
        let (start, end) = groups[g];
        let ghost unsorted = documents@;
        let ghost entered = *context;
        assert(covered(groups@.take(g as int)) == groups@[g as int].0);
        let outcome = sort_group(documents, start, end, criterion, context);
        let ghost (before, after) = (ids(unsorted), ids(documents@));
        proof {
            lemma_permuted_multiset(before, after, start as int, end as int);
            assert(all_descend::<C>(old(documents)@, documents@)) by {
                lemma_descent_chain::<C>(old(documents)@, unsorted, documents@);
            }
            lemma_behind_range(groups@, documents@.len() as int, g as int, range_end as int);
        }
        let lens = match outcome {
            Ok(lens) => lens,
            Err(error) => {
                proof {
                    let group = unsorted.subrange(start as int, end as int);
                    assert(all_descend::<C>(old(documents)@, group)) by {
                        assert forall|i: int| 0 <= i < group.len() implies descends::<C>(
                            #[trigger] group[i],
                            old(documents)@,
                        ) by {
                            assert(group[i] == unsorted[start + i]);
                        }
                    }
                    assert(criterion.fails(entered, group, *context, error));
                }
                return Err(error);
            },
        };
        proof {
            assert(separated(criteria@.take(n as int), after, groups@, g as int) && separated(
                criteria@.take(n + 1),
                after,
                refined@,
                0,
            )) by {
                lemma_contiguous_order(groups@, documents@.len() as int, g as int);
                lemma_contiguous_order(refined@, documents@.len() as int, refined@.len() as int);
                assert(refined@.take(refined@.len() as int) =~= refined@);
                lemma_permuted_separated(
                    criteria@.take(n as int),
                    before,
                    after,
                    groups@,
                    g as int,
                    start as int,
                    end as int,
                );
                lemma_permuted_separated(
                    criteria@.take(n + 1),
                    before,
                    after,
                    refined@,
                    0,
                    start as int,
                    end as int,
                );
            }
            let whole = seq![(start, end)];
            assert(groups@[g as int] == whole[0]);
            assert(separated(criteria@.take(n as int), after, whole, 0));
            assert(end <= covered(groups@)) by {
                lemma_contiguous_chain(
                    groups@,
                    documents@.len() as int,
                    g as int,
                    groups@.len() as int,
                );
                assert(groups@.take(groups@.len() as int) =~= groups@);
            }
            assert(prepared_by(criteria@.take(n as int), documents@, covered(groups@))) by {
                lemma_group_prepared(
                    criteria@.take(n as int),
                    unsorted,
                    documents@,
                    start as int,
                    end as int,
                    covered(groups@),
                );
            }
            assert forall|i: int| 0 <= i < end implies was_prepared(
                *criterion,
                #[trigger] documents@[i],
            ) by {
                if i < start {
                    assert(documents@[i] == unsorted[i]);
                }
            }
            let first = old(documents)@.subrange(groups@[0].0 as int, groups@[0].1 as int);
            assert(prepared_first(*criterion, first, *old(context), *context)) by {
                if g == 0 {
                    assert(unsorted.subrange(start as int, end as int) =~= first);
                    C::advanced_is_a_preorder(*context, *context, *context);
                    assert(can_prepare(*criterion, *old(context), first, *context));
                } else {
                    let reached = choose|reached: C::Context| #[trigger]
                        can_prepare(*criterion, *old(context), first, reached) && C::advanced(
                            reached,
                            entered,
                        );
                    C::advanced_is_a_preorder(reached, entered, *context);
                    assert(can_prepare(*criterion, *old(context), first, reached));
                }
            }
            C::advanced_is_a_preorder(*old(context), entered, *context);
            assert(documents@.len() == documents.len());
        }
        let enough = push_ties::<C>(
            &mut refined,
            &lens,
            start,
            range_end,
            Ghost(end as int),
            Ghost(criteria@),
            Ghost(n as int),
            Ghost(after),
        );
        if enough {
            proof {
                lemma_one_more_prepared(
                    criteria@,
                    n as int,
                    documents@,
                    covered(groups@),
                    covered(refined@),
                );
            }
            return Ok(refined);
        }
        g = g + 1;
        assert(groups@.take(g as int).last() == (start, end));
    }
    proof {
        assert(groups@.take(g as int) =~= groups@);
        lemma_behind_range(groups@, documents@.len() as int, g as int, range_end as int);
        lemma_one_more_prepared(
            criteria@,
            n as int,
            documents@,
            covered(groups@),
            covered(refined@),
        );
    }
    Ok(refined)
}

/// A document that the groups cover stands in one of them.
proof fn lemma_group_of(groups: Seq<(usize, usize)>, len: int, i: int) -> (g: int)
    requires
        contiguous(groups, len),
        0 <= i < covered(groups),
    ensures
        0 <= g < groups.len(),
        groups[g].0 <= i < groups[g].1,
    decreases groups.len(),
{
    let last = groups.len() - 1;
    let shorter = groups.take(last);
    if groups[last].0 <= i {
        last
    } else {
        assert forall|g: int| 0 <= g < shorter.len() implies covered(shorter.take(g)) == (
        #[trigger] shorter[g]).0 <= shorter[g].1 <= len by {
            assert(shorter.take(g) =~= groups.take(g));
            assert(shorter[g] == groups[g]);
        }
        lemma_group_of(shorter, len, i)
    }
}

/// The items of a sequence that stand in the range `start..end`.
pub open spec fn page<A>(items: Seq<A>, start: int, end: int) -> Seq<A> {
    let from = if start < items.len() {
        start
    } else {
        items.len() as int
    };
    let to = if end < from {
        from
    } else if end < items.len() {
        end
    } else {
        items.len() as int
    };
    items.subrange(from, to)
}

/// `ranked` is an order of `documents` in which each of the first `end` documents ranks before,
/// or ties with, all documents after it.
pub open spec fn ranking<C: Criterion>(
    criteria: Seq<C>,
    documents: Seq<DocumentId>,
    ranked: Seq<DocumentId>,
    end: int,
) -> bool {
    &&& ranked.to_multiset() == documents.to_multiset()
    &&& forall|i: int, j: int|
        0 <= i < j < ranked.len() && i < end ==> ranks_before(
            criteria,
            #[trigger] ranked[i],
            #[trigger] ranked[j],
        ) || all_tie(criteria, ranked[i], ranked[j])
}

/// Whether every criterion has prepared one of the documents, before which none of them ranks.
pub open spec fn foremost_prepared<C: Criterion>(
    criteria: Seq<C>,
    documents: Seq<RawDocument<C::Matches>>,
) -> bool {
    exists|first: RawDocument<C::Matches>|
        {
            &&& #[trigger] descends::<C>(first, documents)
            &&& forall|k: int|
                0 <= k < criteria.len() ==> was_prepared(#[trigger] criteria[k], first)
            &&& forall|i: int|
                0 <= i < documents.len() ==> !ranks_before(
                    criteria,
                    (#[trigger] documents[i]).id,
                    first.id,
                )
        }
}

/// The first document of the first group is the foremost one.
proof fn lemma_foremost<C: Criterion>(
    criteria: Seq<C>,
    unsorted: Seq<RawDocument<C::Matches>>,
    sorted: Seq<RawDocument<C::Matches>>,
    groups: Seq<(usize, usize)>,
)
    requires
        unsorted.len() > 0,
        ids(sorted).to_multiset() == ids(unsorted).to_multiset(),
        all_descend::<C>(unsorted, sorted),
        contiguous(groups, sorted.len() as int),
        separated(criteria, ids(sorted), groups, 0),
        prepared_by(criteria, sorted, covered(groups)),
        groups.len() > 0,
        groups[0].1 > 0,
    ensures
        foremost_prepared(criteria, unsorted),
{
    let ranked = ids(sorted);
    let first = sorted[0];
    assert(covered(groups.take(0)) == groups[0].0);
    lemma_contiguous_chain(groups, sorted.len() as int, 0, groups.len() as int);
    assert(groups.take(groups.len() as int) =~= groups);
    assert(descends::<C>(first, unsorted));
    assert(ranked[0] == first.id);
    assert forall|i: int| 0 <= i < unsorted.len() implies !ranks_before(
        criteria,
        (#[trigger] unsorted[i]).id,
        first.id,
    ) by {
        let id = unsorted[i].id;
        assert(ids(unsorted)[i] == id);
        let j = lemma_same_items(ids(unsorted), ranked, i);
        assert(ranked[j] == id);
        criteria_rank_documents(criteria, first.id, id, id);
        criteria_rank_documents(criteria, id, first.id, id);
        if j < groups[0].1 {
            assert(all_tie(criteria, ranked[j], ranked[0]));
        } else {
            assert(ranks_before(criteria, ranked[0], ranked[j]));
        }
    }
}

/// One more criterion took part, and the context advanced once more.
proof fn lemma_context_advances<C: Criterion>(
    criteria: Seq<C>,
    n: int,
    unsorted: Seq<RawDocument<C::Matches>>,
    between: Seq<RawDocument<C::Matches>>,
    first: Seq<RawDocument<C::Matches>>,
    before: C::Context,
    entered: C::Context,
    after: C::Context,
)
    requires
        0 <= n < criteria.len(),
        all_descend::<C>(unsorted, between),
        C::advanced(before, entered),
        C::advanced(entered, after),
        n > 0 ==> prepared_first(criteria[0], unsorted, before, entered),
        unsorted.len() > 0 ==> forall|k: int|
            0 <= k < n ==> took_part(#[trigger] criteria[k], unsorted, before, entered),
        n == 0 ==> first == unsorted && entered == before && prepared_first(
            criteria[0],
            first,
            before,
            after,
        ),
        unsorted.len() > 0 ==> first.len() > 0 && prepared_first(
            criteria[n],
            first,
            entered,
            after,
        ) && forall|i: int| 0 <= i < first.len() ==> between.contains(#[trigger] first[i]),
    ensures
        C::advanced(before, after),
        prepared_first(criteria[0], unsorted, before, after),
        unsorted.len() > 0 ==> forall|k: int|
            0 <= k <= n ==> took_part(#[trigger] criteria[k], unsorted, before, after),
{
    C::advanced_is_a_preorder(before, entered, after);
    if n > 0 {
        let end = choose|end: C::Context| #[trigger]
            can_prepare(criteria[0], before, unsorted, end) && C::advanced(end, entered);
        C::advanced_is_a_preorder(end, entered, after);
        assert(can_prepare(criteria[0], before, unsorted, end));
    }
    if unsorted.len() > 0 {
        assert forall|k: int| 0 <= k <= n implies took_part(
            #[trigger] criteria[k],
            unsorted,
            before,
            after,
        ) by {
            if k < n {
                assert(took_part(criteria[k], unsorted, before, entered));
                let (start, group, end) = choose|
                    start: C::Context,
                    group: Seq<RawDocument<C::Matches>>,
                    end: C::Context,
                |
                    {
                        &&& #[trigger] can_prepare(criteria[k], start, group, end)
                        &&& group.len() > 0
                        &&& all_descend::<C>(unsorted, group)
                        &&& C::advanced(before, start)
                        &&& C::advanced(end, entered)
                    };
                C::advanced_is_a_preorder(end, entered, after);
                assert(can_prepare(criteria[k], start, group, end));
            } else {
                let end = choose|end: C::Context| #[trigger]
                    can_prepare(criteria[n], entered, first, end) && C::advanced(end, after);
                assert forall|i: int| 0 <= i < first.len() implies descends::<C>(
                    #[trigger] first[i],
                    unsorted,
                ) by {
                    let j = choose|j: int| 0 <= j < between.len() && between[j] == first[i];
                    assert(descends::<C>(between[j], unsorted));
                }
                assert(can_prepare(criteria[n], entered, first, end));
            }
        }
    }
}

/// A criterion that failed on documents that descend from others failed on those.
proof fn lemma_failure<C: Criterion>(
    criterion: C,
    unsorted: Seq<RawDocument<C::Matches>>,
    between: Seq<RawDocument<C::Matches>>,
    before: C::Context,
    entered: C::Context,
    after: C::Context,
    error: C::Error,
)
    requires
        all_descend::<C>(unsorted, between),
        C::advanced(before, entered),
        failed_on(criterion, between, entered, after, error),
    ensures
        failed_on(criterion, unsorted, before, after, error),
{
    let (start, group) = choose|start: C::Context, group: Seq<RawDocument<C::Matches>>|
        {
            &&& #[trigger] criterion.fails(start, group, after, error)
            &&& all_descend::<C>(between, group)
            &&& C::advanced(entered, start)
        };
    lemma_descent_chain::<C>(unsorted, between, group);
    C::advanced_is_a_preorder(before, entered, start);
    assert(criterion.fails(start, group, after, error));
}

/// The documents of `range`, out of `documents` ranked by the criteria: by the first one, where
/// it ties by the second one, and so on.
///
/// Which of the documents that tie on all criteria comes first is left open. Each document that is
/// returned is one of `documents`, as preparing it left it, and every criterion has prepared it.
///
/// The first criterion prepares all documents, and the others take part whatever the range, as long
/// as there is a document. A criterion that fails ends the ranking with its error: nothing touches
/// the context behind the failure, and where the ranking succeeds no criterion failed.
pub fn bucket_sort<C: Criterion>(
    documents: Vec<RawDocument<C::Matches>>,
    range: Range<usize>,
    criteria: &Vec<C>,
    context: &mut C::Context,
) -> (result: Result<Vec<RawDocument<C::Matches>>, C::Error>)
    ensures
        result matches Ok(found) ==> exists|ranked: Seq<DocumentId>|
            {
                &&& #[trigger] ranking(criteria@, ids(documents@), ranked, range.end as int)
                &&& ids(found@) == page(ranked, range.start as int, range.end as int)
            },
        result matches Ok(found) ==> all_descend::<C>(documents@, found@),
        result matches Ok(found) ==> forall|i: int, k: int|
            0 <= i < found@.len() && 0 <= k < criteria@.len() ==> was_prepared(
                #[trigger] criteria@[k],
                #[trigger] found@[i],
            ),
        result is Ok && documents@.len() > 0 ==> foremost_prepared(criteria@, documents@),
        result is Ok ==> C::advanced(*old(context), *final(context)),
        result is Ok && criteria@.len() > 0 ==> prepared_first(
            criteria@[0],
            documents@,
            *old(context),
            *final(context),
        ),
        result is Ok && documents@.len() > 0 ==> forall|k: int|
            0 <= k < criteria@.len() ==> took_part(
                #[trigger] criteria@[k],
                documents@,
                *old(context),
                *final(context),
            ),
        result matches Err(error) ==> exists|k: int|
            0 <= k < criteria@.len() && failed_on(
                #[trigger] criteria@[k],
                documents@,
                *old(context),
                *final(context),
                error,
            ),
        criteria@.len() == 0 ==> *final(context) == *old(context) && result is Ok
            && result->Ok_0@ == page(documents@, range.start as int, range.end as int),
{
    let ghost initial = ids(documents@);
    let ghost unsorted = documents@;
    let mut sorted = documents;
    let mut groups: Vec<(usize, usize)> = Vec::new();
    groups.push((0, sorted.len()));
    let mut n: usize = 0;
    proof {
        assert(groups@.take(0).len() == 0);
        lemma_descent_of_same::<C>(unsorted, unsorted);
        C::advanced_is_a_preorder(*context, *context, *context);
        assert forall|a: DocumentId, b: DocumentId| all_tie(criteria@.take(0), a, b) by {}
    }
    while n < criteria.len()
        invariant
            n <= criteria@.len(),
            unsorted == documents@,
            ids(sorted@).to_multiset() == initial.to_multiset(),
            contiguous(groups@, sorted@.len() as int),
            separated(criteria@.take(n as int), ids(sorted@), groups@, 0),
            covered(groups@) >= range.end || covered(groups@) == sorted@.len(),
            all_descend::<C>(unsorted, sorted@),
            prepared_by(criteria@.take(n as int), sorted@, covered(groups@)),
            sorted@.len() == unsorted.len(),
            sorted@.len() > 0 ==> groups@.len() > 0 && groups@[0].1 > 0,
            n == 0 ==> sorted@ == unsorted && *context == *old(context),
            n == 0 ==> groups@ == seq![(0usize, sorted.len())],
            C::advanced(*old(context), *context),
            n > 0 ==> prepared_first(criteria@[0], unsorted, *old(context), *context),
            unsorted.len() > 0 ==> forall|k: int|
                0 <= k < n ==> took_part(
                    #[trigger] criteria@[k],
                    unsorted,
                    *old(context),
                    *context,
                ),
        decreases criteria@.len() - n,
    {
        let ghost between = sorted@;
        let ghost entered = *context;
        let ghost first = between.subrange(groups@[0].0 as int, groups@[0].1 as int);
        let outcome = refine(&mut sorted, &groups, criteria, n, range.end, context);
        proof {
            ids(between).to_multiset_ensures();
            ids(sorted@).to_multiset_ensures();
            lemma_descent_chain::<C>(unsorted, between, sorted@);
            if n == 0 {
                assert(first =~= unsorted);
            }
        }
        match outcome {
            Ok(refined) => {
                proof {
                    lemma_context_advances(
                        criteria@,
                        n as int,
                        unsorted,
                        between,
                        first,
                        *old(context),
                        entered,
                        *context,
                    );
                }
                groups = refined;
            },
            Err(error) => {
                proof {
                    lemma_failure(
                        criteria@[n as int],
                        unsorted,
                        between,
                        *old(context),
                        entered,
                        *context,
                        error,
                    );
                    assert(failed_on(
                        criteria@[n as int],
                        documents@,
                        *old(context),
                        *context,
                        error,
                    ));
                }
                return Err(error);
            },
        }
        n = n + 1;
    }
    let ghost ranked = ids(sorted@);
    proof {
        assert(criteria@.take(n as int) =~= criteria@);
        assert forall|i: int, j: int|
            0 <= i < j < ranked.len() && i < range.end implies ranks_before(
            criteria@,
            #[trigger] ranked[i],
            #[trigger] ranked[j],
        ) || all_tie(criteria@, ranked[i], ranked[j]) by {
            let g = lemma_group_of(groups@, ranked.len() as int, i);
            assert(groups@[g].0 <= i < groups@[g].1);
        }
        assert(ranking(criteria@, initial, ranked, range.end as int));
        if unsorted.len() > 0 {
            lemma_foremost(criteria@, unsorted, sorted@, groups@);
        }
    }
    let len = sorted.len();
    let from = if range.start < len {
        range.start
    } else {
        len
    };
    let ghost ordered = sorted@;
    let mut found = sorted.split_off(from);
    let count = if range.start < range.end {
        range.end - range.start
    } else {
        0
    };
    if count < found.len() {
        found.truncate(count);
    }
    proof {
        assert(found@ =~= page(ordered, range.start as int, range.end as int));
        assert forall|i: int| 0 <= i < found@.len() implies descends::<C>(
            #[trigger] found@[i],
            unsorted,
        ) by {
            assert(found@[i] == ordered[from + i]);
        }
        assert forall|i: int, k: int|
            0 <= i < found@.len() && 0 <= k < criteria@.len() implies was_prepared(
            #[trigger] criteria@[k],
            #[trigger] found@[i],
        ) by {
            assert(found@[i] == ordered[from + i]);
            assert(was_prepared(criteria@.take(n as int)[k], ordered[from + i]));
        }
        assert(ids(found@) =~= page(ranked, range.start as int, range.end as int));
    }
    Ok(found)
}

/// A page of a ranking is in order, and no document behind it ranks before one of it.
pub proof fn pages_are_ranked<C: Criterion>(
    criteria: Seq<C>,
    documents: Seq<DocumentId>,
    ranked: Seq<DocumentId>,
    start: int,
    end: int,
    i: int,
    j: int,
)
    requires
        0 <= start,
        ranking(criteria, documents, ranked, end),
        0 <= i < page(ranked, start, end).len(),
        start + i < j < ranked.len(),
    ensures
        page(ranked, start, end)[i] == ranked[start + i],
        !ranks_before(criteria, ranked[j], page(ranked, start, end)[i]),
{
    let (a, b) = (ranked[start + i], ranked[j]);
    assert(ranks_before(criteria, a, b) || all_tie(criteria, a, b));
    criteria_rank_documents(criteria, a, b, a);
    criteria_rank_documents(criteria, b, a, a);
    lemma_tie_both_ways(criteria, a, b);
}

/// A page is as long as its range, but for what lies behind the last document.
pub proof fn page_length<A>(items: Seq<A>, start: int, end: int)
    requires
        0 <= start,
    ensures
        start <= end <= items.len() ==> page(items, start, end).len() == end - start,
        start <= items.len() <= end ==> page(items, start, end).len() == items.len() - start,
        items.len() <= start || end <= start ==> page(items, start, end).len() == 0,
{
}

/// Two pages that follow each other are one page.
pub proof fn pages_follow_each_other<A>(items: Seq<A>, start: int, middle: int, end: int)
    requires
        0 <= start <= middle <= end,
    ensures
        page(items, start, middle) + page(items, middle, end) == page(items, start, end),
{
    assert(page(items, start, middle) + page(items, middle, end) =~= page(items, start, end));
}

/// Where no two documents tie on all criteria, two rankings of the same documents agree as far as
/// both go.
pub proof fn rankings_agree<C: Criterion>(
    criteria: Seq<C>,
    documents: Seq<DocumentId>,
    one: Seq<DocumentId>,
    one_end: int,
    other: Seq<DocumentId>,
    other_end: int,
    i: int,
)
    requires
        documents.no_duplicates(),
        forall|a: int, b: int|
            0 <= a < b < documents.len() ==> !all_tie(
                criteria,
                #[trigger] documents[a],
                #[trigger] documents[b],
            ),
        ranking(criteria, documents, one, one_end),
        ranking(criteria, documents, other, other_end),
        0 <= i < documents.len(),
        i < one_end,
        i < other_end,
    ensures
        one.len() == other.len() == documents.len(),
        one[i] == other[i],
    decreases i,
{
    documents.to_multiset_ensures();
    one.to_multiset_ensures();
    other.to_multiset_ensures();
    if one[i] != other[i] {
        assert forall|h: int| 0 <= h < i implies one[h] == other[h] by {
            rankings_agree(criteria, documents, one, one_end, other, other_end, h);
        }
        let j = lemma_same_items(one, other, i);
        let k = lemma_same_items(other, one, i);
        lemma_once(documents, one);
        lemma_once(documents, other);
        assert(i < j) by {
            if j < i {
                assert(one[j] == one[i]);
            }
        }
        assert(i < k) by {
            if k < i {
                assert(other[k] == other[i]);
            }
        }
        let (a, b) = (one[i], other[i]);
        assert(other[j] == a && one[k] == b);
        assert(ranks_before(criteria, a, b) || all_tie(criteria, a, b));
        assert(ranks_before(criteria, b, a) || all_tie(criteria, b, a));
        criteria_rank_documents(criteria, a, b, a);
        criteria_rank_documents(criteria, b, a, a);
        let x = lemma_same_items(one, documents, i);
        let y = lemma_same_items(other, documents, i);
        if x < y {
            assert(!all_tie(criteria, documents[x], documents[y]));
        } else {
            assert(!all_tie(criteria, documents[y], documents[x]));
        }
        assert(all_tie(criteria, a, b) ==> all_tie(criteria, b, a)) by {
            lemma_tie_both_ways(criteria, a, b);
        }
        assert(all_tie(criteria, b, a) ==> all_tie(criteria, a, b)) by {
            lemma_tie_both_ways(criteria, b, a);
        }
    }
}

/// Documents that tie one way tie the other way.
proof fn lemma_tie_both_ways<C: Criterion>(criteria: Seq<C>, a: DocumentId, b: DocumentId)
    ensures
        all_tie(criteria, a, b) ==> all_tie(criteria, b, a),
{
    if all_tie(criteria, a, b) {
        assert forall|k: int| 0 <= k < criteria.len() implies tie(#[trigger] criteria[k], b, a) by {
            assert(tie(criteria[k], a, b));
        }
    }
}

/// What stands once in a sequence stands once in another order of it.
proof fn lemma_once(documents: Seq<DocumentId>, ranked: Seq<DocumentId>)
    requires
        documents.no_duplicates(),
        ranked.to_multiset() == documents.to_multiset(),
    ensures
        ranked.no_duplicates(),
{
    documents.lemma_multiset_has_no_duplicates();
    ranked.lemma_multiset_has_no_duplicates_conv();
}

/// Where no two documents tie on all criteria, a page of one search and the next page of another
/// one are one page.
pub proof fn pages_of_two_searches_follow_each_other<C: Criterion>(
    criteria: Seq<C>,
    documents: Seq<DocumentId>,
    one: Seq<DocumentId>,
    other: Seq<DocumentId>,
    start: int,
    middle: int,
    end: int,
)
    requires
        documents.no_duplicates(),
        forall|a: int, b: int|
            0 <= a < b < documents.len() ==> !all_tie(
                criteria,
                #[trigger] documents[a],
                #[trigger] documents[b],
            ),
        0 <= start <= middle <= end,
        ranking(criteria, documents, one, middle),
        ranking(criteria, documents, other, end),
    ensures
        page(one, start, middle) + page(other, middle, end) == page(other, start, end),
{
    documents.to_multiset_ensures();
    one.to_multiset_ensures();
    other.to_multiset_ensures();
    assert forall|i: int| 0 <= i < middle && i < documents.len() implies #[trigger] one[i]
        == other[i] by {
        rankings_agree(criteria, documents, one, middle, other, end, i);
    }
    assert(page(one, start, middle) =~= page(other, start, middle));
    pages_follow_each_other(other, start, middle, end);
}

/// The documents that are found are those of the range in an order of all documents, in which none
/// of the documents up to the end of the range is behind one that it ranks before.
pub proof fn found_documents_are_the_best<C: Criterion>(
    criteria: Seq<C>,
    documents: Seq<RawDocument<C::Matches>>,
    ranked: Seq<DocumentId>,
    start: int,
    end: int,
    found: Seq<RawDocument<C::Matches>>,
)
    requires
        0 <= start,
        ranking(criteria, ids(documents), ranked, end),
        ids(found) == page(ranked, start, end),
    ensures
        ranked.len() == documents.len(),
        ranked.to_multiset() == documents.map_values(
            |document: RawDocument<C::Matches>| document.id,
        ).to_multiset(),
        found.len() == if end <= start || documents.len() <= start {
            0
        } else if end <= documents.len() {
            end - start
        } else {
            documents.len() - start
        },
        forall|i: int| 0 <= i < found.len() ==> (#[trigger] found[i]).id == ranked[start + i],
        forall|i: int, j: int|
            0 <= i < j < ranked.len() && i < end ==> !ranks_before(
                criteria,
                #[trigger] ranked[j],
                #[trigger] ranked[i],
            ),
{
    documents.map_values(
        |document: RawDocument<C::Matches>| document.id,
    ).to_multiset_ensures();
    ranked.to_multiset_ensures();
    assert(ids(documents).len() == documents.len());
    assert(ids(found).len() == found.len());
    page_length(ranked, start, end);
    assert forall|i: int| 0 <= i < found.len() implies (#[trigger] found[i]).id == ranked[start
        + i] by {
        assert(ids(found)[i] == found[i].id);
    }
    assert forall|i: int, j: int| 0 <= i < j < ranked.len() && i < end implies !ranks_before(
        criteria,
        #[trigger] ranked[j],
        #[trigger] ranked[i],
    ) by {
        let (a, b) = (ranked[i], ranked[j]);
        assert(ranks_before(criteria, a, b) || all_tie(criteria, a, b));
        criteria_rank_documents(criteria, a, b, a);
        criteria_rank_documents(criteria, b, a, a);
        lemma_tie_both_ways(criteria, a, b);
    }
}

/// A document that descends from others is one of them, but for what preparing it may have done to
/// it.
pub proof fn descent_keeps_the_document<C: Criterion>(
    documents: Seq<RawDocument<C::Matches>>,
    found: Seq<RawDocument<C::Matches>>,
    i: int,
) -> (k: int)
    requires
        all_descend::<C>(documents, found),
        0 <= i < found.len(),
    ensures
        0 <= k < documents.len(),
        documents[k].id == found[i].id,
        C::carried(documents[k].matches, found[i].matches),
{
    assert(descends::<C>(found[i], documents));
    choose|k: int|
        0 <= k < documents.len() && (#[trigger] documents[k]).id == found[i].id && C::carried(
            documents[k].matches,
            found[i].matches,
        )
}

/// No document that is left out of a page from the first document on ranks before one of the page.
pub proof fn no_better_document_is_left_out<C: Criterion>(
    criteria: Seq<C>,
    documents: Seq<RawDocument<C::Matches>>,
    ranked: Seq<DocumentId>,
    end: int,
    found: Seq<RawDocument<C::Matches>>,
    d: int,
    i: int,
)
    requires
        ranking(criteria, ids(documents), ranked, end),
        ids(found) == page(ranked, 0, end),
        0 <= d < documents.len(),
        forall|j: int| 0 <= j < found.len() ==> (#[trigger] found[j]).id != documents[d].id,
        0 <= i < found.len(),
    ensures
        !ranks_before(criteria, documents[d].id, found[i].id),
        found.len() == end,
{
    ids(documents).to_multiset_ensures();
    ranked.to_multiset_ensures();
    assert(ids(documents).len() == documents.len());
    assert(ids(found).len() == found.len());
    assert(ids(documents)[d] == documents[d].id);
    let j = lemma_same_items(ids(documents), ranked, d);
    assert(found.len() <= j) by {
        if j < found.len() {
            assert(ids(found)[j] == found[j].id);
            assert(page(ranked, 0, end)[j] == ranked[j]);
        }
    }
    assert(ids(found)[i] == found[i].id);
    pages_are_ranked(criteria, ids(documents), ranked, 0, end, i, j);
}

/// A page holds the items from its start on, one for each place of the range that there is.
pub proof fn pages_are_windows<A>(items: Seq<A>, start: int, end: int, i: int)
    requires
        0 <= start,
        0 <= i,
    ensures
        i < page(items, start, end).len() <==> start + i < end && start + i < items.len(),
        i < page(items, start, end).len() ==> page(items, start, end)[i] == items[start + i],
{
}

/// A document that a criterion prepared is one that it can compare, but for what preparing it
/// further may have done to it.
pub proof fn prepared_documents_can_be_compared<C: Criterion>(
    criterion: C,
    document: RawDocument<C::Matches>,
) -> (made: (C::Context, RawDocument<C::Matches>))
    requires
        was_prepared(criterion, document),
    ensures
        criterion.prepared(made.0, made.1),
        made.1.id == document.id,
        C::carried(made.1.matches, document.matches),
{
    choose|context: C::Context, ready: RawDocument<C::Matches>| #[trigger]
        criterion.prepared(context, ready) && ready.id == document.id && C::carried(
            ready.matches,
            document.matches,
        )
}

/// A criterion that took part succeeded in preparing documents, at least one, each of them one of
/// the documents, while the context advanced.
pub proof fn taking_part_is_preparing<C: Criterion>(
    criterion: C,
    documents: Seq<RawDocument<C::Matches>>,
    before: C::Context,
    after: C::Context,
)
    requires
        took_part(criterion, documents, before, after),
    ensures
        exists|
            start: C::Context,
            group: Seq<RawDocument<C::Matches>>,
            end: C::Context,
            ready: Seq<RawDocument<C::Matches>>,
        |
            {
                &&& #[trigger] criterion.prepares(start, group, end, ready)
                &&& group.len() > 0
                &&& forall|i: int|
                    0 <= i < group.len() ==> descends::<C>(#[trigger] group[i], documents)
                &&& C::advanced(before, start)
                &&& C::advanced(end, after)
            },
{
    let (start, group, end) = choose|
        start: C::Context,
        group: Seq<RawDocument<C::Matches>>,
        end: C::Context,
    |
        {
            &&& #[trigger] can_prepare(criterion, start, group, end)
            &&& group.len() > 0
            &&& all_descend::<C>(documents, group)
            &&& C::advanced(before, start)
            &&& C::advanced(end, after)
        };
    let ready = choose|ready: Seq<RawDocument<C::Matches>>| #[trigger]
        criterion.prepares(start, group, end, ready);
    assert(criterion.prepares(start, group, end, ready));
}

/// A criterion that prepared documents first succeeded in preparing just these, from the first
/// context on, which then advanced.
pub proof fn the_first_criterion_prepares_all<C: Criterion>(
    criterion: C,
    documents: Seq<RawDocument<C::Matches>>,
    before: C::Context,
    after: C::Context,
)
    requires
        prepared_first(criterion, documents, before, after),
    ensures
        exists|end: C::Context, ready: Seq<RawDocument<C::Matches>>| #[trigger]
            criterion.prepares(before, documents, end, ready) && C::advanced(end, after),
{
    let end = choose|end: C::Context| #[trigger]
        can_prepare(criterion, before, documents, end) && C::advanced(end, after);
    let ready = choose|ready: Seq<RawDocument<C::Matches>>| #[trigger]
        criterion.prepares(before, documents, end, ready);
    assert(criterion.prepares(before, documents, end, ready));
}

/// The foremost document is one of the documents, prepared by every criterion, and none of the
/// documents ranks before it.
pub proof fn the_foremost_document_is_prepared<C: Criterion>(
    criteria: Seq<C>,
    documents: Seq<RawDocument<C::Matches>>,
) -> (first: (int, RawDocument<C::Matches>))
    requires
        foremost_prepared(criteria, documents),
    ensures
        0 <= first.0 < documents.len(),
        documents[first.0].id == first.1.id,
        C::carried(documents[first.0].matches, first.1.matches),
        forall|k: int| 0 <= k < criteria.len() ==> was_prepared(#[trigger] criteria[k], first.1),
        forall|i: int|
            0 <= i < documents.len() ==> !ranks_before(
                criteria,
                (#[trigger] documents[i]).id,
                documents[first.0].id,
            ),
{
    let first = choose|first: RawDocument<C::Matches>|
        {
            &&& #[trigger] descends::<C>(first, documents)
            &&& forall|k: int|
                0 <= k < criteria.len() ==> was_prepared(#[trigger] criteria[k], first)
            &&& forall|i: int|
                0 <= i < documents.len() ==> !ranks_before(
                    criteria,
                    (#[trigger] documents[i]).id,
                    first.id,
                )
        };
    let k = choose|k: int|
        0 <= k < documents.len() && (#[trigger] documents[k]).id == first.id && C::carried(
            documents[k].matches,
            first.matches,
        );
    (k, first)
}

/// A failure is that of a criterion on some of the documents, in a context that advanced from the
/// first one, and it leaves the last context.
pub proof fn failures_are_handed_on<C: Criterion>(
    criterion: C,
    documents: Seq<RawDocument<C::Matches>>,
    before: C::Context,
    after: C::Context,
    error: C::Error,
)
    requires
        failed_on(criterion, documents, before, after, error),
    ensures
        exists|start: C::Context, group: Seq<RawDocument<C::Matches>>|
            {
                &&& #[trigger] criterion.fails(start, group, after, error)
                &&& C::advanced(before, start)
                &&& forall|i: int|
                    0 <= i < group.len() ==> descends::<C>(#[trigger] group[i], documents)
            },
{
    let (start, group) = choose|start: C::Context, group: Seq<RawDocument<C::Matches>>|
        {
            &&& #[trigger] criterion.fails(start, group, after, error)
            &&& all_descend::<C>(documents, group)
            &&& C::advanced(before, start)
        };
    assert(criterion.fails(start, group, after, error));
}

} // verus!
