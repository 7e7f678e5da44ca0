//! The criteria by which the documents of a search are ranked.

use std::cmp::Ordering;

use vstd::prelude::*;

use crate::documents::{comes_from, ids, DocumentId, DocumentSeq, RawDocument};

verus! {

/// A rule that says which of two documents comes first.
///
/// Each document is known by its identifier: the order of two documents does not change
/// while a search is ranked.
pub trait Criterion {
    /// What the rule reads besides the documents: the postings lists of the search,
    /// the mapping of the query.
    type Context;

    /// What the rule reads and fills in of each document.
    type Matches;

    type Error;

    /// Whether document `a` comes strictly before document `b`.
    spec fn before(&self, a: DocumentId, b: DocumentId) -> bool;

    /// Whether `document` holds what comparing it needs.
    spec fn prepared(&self, context: Self::Context, document: RawDocument<Self::Matches>) -> bool;

    /// Whether preparing a document can turn what it holds from `before` into `after`.
    spec fn carried(before: Self::Matches, after: Self::Matches) -> bool;

    /// Whether preparing documents, once or more often and without failing, can turn the context
    /// from `before` into `after`.
    spec fn advanced(before: Self::Context, after: Self::Context) -> bool;

    /// Whether preparing `documents` in the context `before` can succeed and leave the context
    /// `after` and the documents `ready`.
    spec fn prepares(
        &self,
        before: Self::Context,
        documents: DocumentSeq<Self::Matches>,
        after: Self::Context,
        ready: DocumentSeq<Self::Matches>,
    ) -> bool;

    /// Whether preparing `documents` in the context `before` can end in `error` and leave the
    /// context `after`.
    spec fn fails(
        &self,
        before: Self::Context,
        documents: DocumentSeq<Self::Matches>,
        after: Self::Context,
        error: Self::Error,
    ) -> bool;

    /// Two documents never come before each other, and documents that tie
    /// come before, after or tie with the same documents.
    proof fn before_is_a_strict_weak_order(&self, a: DocumentId, b: DocumentId, c: DocumentId)
        ensures
            self.before(a, b) ==> !self.before(b, a),
            self.before(a, b) ==> self.before(a, c) || self.before(c, b),
    ;

    /// A document may stay as it is, and preparing it twice may do what preparing it once may do.
    proof fn carried_is_a_preorder(a: Self::Matches, b: Self::Matches, c: Self::Matches)
        ensures
            Self::carried(a, a),
            Self::carried(a, b) && Self::carried(b, c) ==> Self::carried(a, c),
    ;

    /// A context may stay as it is, and may advance in steps.
    proof fn advanced_is_a_preorder(a: Self::Context, b: Self::Context, c: Self::Context)
        ensures
            Self::advanced(a, a),
            Self::advanced(a, b) && Self::advanced(b, c) ==> Self::advanced(a, c),
    ;

    /// Computes what the comparisons of these documents need. The documents may change places.
    fn prepare(
        &self,
        context: &mut Self::Context,
        documents: &mut [RawDocument<Self::Matches>],
    ) -> (result: Result<(), Self::Error>)
        ensures
            ids(final(documents)@).to_multiset() == ids(old(documents)@).to_multiset(),
            forall|i: int|
                0 <= i < final(documents)@.len() ==> comes_from(
                    #[trigger] final(documents)@[i],
                    old(documents)@,
                    |a: Self::Matches, b: Self::Matches| Self::carried(a, b),
                ),
            result is Ok ==> forall|i: int|
                0 <= i < final(documents)@.len() ==> self.prepared(
                    *final(context),
                    #[trigger] final(documents)@[i],
                ),
            result is Ok ==> Self::advanced(*old(context), *final(context)) && self.prepares(
                *old(context),
                old(documents)@,
                *final(context),
                final(documents)@,
            ),
            result matches Err(error) ==> self.fails(
                *old(context),
                old(documents)@,
                *final(context),
                error,
            ),
    ;

    /// Compares two prepared documents.
    fn evaluate(
        &self,
        context: &Self::Context,
        a: &RawDocument<Self::Matches>,
        b: &RawDocument<Self::Matches>,
    ) -> (order: Ordering)
        requires
            self.prepared(*context, *a),
            self.prepared(*context, *b),
        ensures
            order == Ordering::Less <==> self.before(a.id, b.id),
            order == Ordering::Greater <==> self.before(b.id, a.id),
    ;

    /// Whether two prepared documents tie.
    fn eq(
        &self,
        context: &Self::Context,
        a: &RawDocument<Self::Matches>,
        b: &RawDocument<Self::Matches>,
    ) -> (equal: bool)
        requires
            self.prepared(*context, *a),
            self.prepared(*context, *b),
        ensures
            equal <==> !self.before(a.id, b.id) && !self.before(b.id, a.id),
    ;
}

/// Whether a criterion puts neither document before the other.
pub open spec fn tie<C: Criterion>(criterion: C, a: DocumentId, b: DocumentId) -> bool {
    !criterion.before(a, b) && !criterion.before(b, a)
}

/// Whether every one of the criteria puts neither document before the other.
pub open spec fn all_tie<C: Criterion>(criteria: Seq<C>, a: DocumentId, b: DocumentId) -> bool {
    forall|k: int| 0 <= k < criteria.len() ==> tie(#[trigger] criteria[k], a, b)
}

/// Whether the first criterion on which the two documents do not tie puts `a` before `b`.
pub open spec fn ranks_before<C: Criterion>(
    criteria: Seq<C>,
    a: DocumentId,
    b: DocumentId,
) -> bool {
    exists|k: int|
        0 <= k < criteria.len() && (#[trigger] criteria[k]).before(a, b) && all_tie(
            criteria.take(k),
            a,
            b,
        )
}

/// Looking at one more criterion decides only between documents that tied so far.
pub proof fn one_more_criterion<C: Criterion>(
    criteria: Seq<C>,
    n: int,
    a: DocumentId,
    b: DocumentId,
)
    requires
        0 <= n < criteria.len(),
    ensures
        ranks_before(criteria.take(n + 1), a, b) <==> ranks_before(criteria.take(n), a, b) || (
        all_tie(criteria.take(n), a, b) && criteria[n].before(a, b)),
        all_tie(criteria.take(n + 1), a, b) <==> all_tie(criteria.take(n), a, b) && tie(
            criteria[n],
            a,
            b,
        ),
{
    let shorter = criteria.take(n);
    let longer = criteria.take(n + 1);
    assert forall|k: int| 0 <= k <= n implies longer.take(k) == criteria.take(k) by {
        assert(longer.take(k) =~= criteria.take(k));
    }
    assert forall|k: int| 0 <= k <= n implies shorter.take(k) == criteria.take(k) by {
        assert(shorter.take(k) =~= criteria.take(k));
    }
    assert(longer[n] == criteria[n]);
    assert(forall|k: int| 0 <= k < n ==> #[trigger] longer[k] == shorter[k]);
    if ranks_before(shorter, a, b) {
        let k = choose|k: int|
            0 <= k < shorter.len() && (#[trigger] shorter[k]).before(a, b) && all_tie(
                shorter.take(k),
                a,
                b,
            );
        assert(longer[k].before(a, b) && all_tie(longer.take(k), a, b));
    }
    if all_tie(shorter, a, b) && criteria[n].before(a, b) {
        assert(longer[n].before(a, b) && all_tie(longer.take(n), a, b));
    }
    if ranks_before(longer, a, b) {
        let k = choose|k: int|
            0 <= k < longer.len() && (#[trigger] longer[k]).before(a, b) && all_tie(
                longer.take(k),
                a,
                b,
            );
        if k < n {
            assert(shorter[k].before(a, b) && all_tie(shorter.take(k), a, b));
        }
    }
    if all_tie(longer, a, b) {
        assert forall|k: int| 0 <= k < n implies tie(#[trigger] shorter[k], a, b) by {
            assert(tie(longer[k], a, b));
        }
        assert(tie(longer[n], a, b));
    }
    if all_tie(shorter, a, b) && tie(criteria[n], a, b) {
        assert forall|k: int| 0 <= k < longer.len() implies tie(#[trigger] longer[k], a, b) by {
            if k < n {
                assert(tie(shorter[k], a, b));
            }
        }
    }
}

/// Of two documents one ranks before the other, or they tie on all criteria; never two of these.
/// Documents that tie on all criteria rank alike against any other document.
pub proof fn criteria_rank_documents<C: Criterion>(
    criteria: Seq<C>,
    a: DocumentId,
    b: DocumentId,
    c: DocumentId,
)
    ensures
        ranks_before(criteria, a, b) || ranks_before(criteria, b, a) || all_tie(criteria, a, b),
        !(ranks_before(criteria, a, b) && ranks_before(criteria, b, a)),
        !(ranks_before(criteria, a, b) && all_tie(criteria, a, b)),
        ranks_before(criteria, a, b) ==> ranks_before(criteria, a, c) || ranks_before(
            criteria,
            c,
            b,
        ),
    decreases criteria.len(),
{
    if criteria.len() > 0 {
        let n = criteria.len() - 1;
        let shorter = criteria.take(n);
        criteria_rank_documents(shorter, a, b, c);
        criteria_rank_documents(shorter, a, c, b);
        criteria_rank_documents(shorter, c, b, a);
        criteria_rank_documents(shorter, b, c, a);
        criteria_rank_documents(shorter, c, a, b);
        criteria_rank_documents(shorter, b, a, c);
        assert(criteria.take(n + 1) =~= criteria);
        one_more_criterion(criteria, n, a, b);
        one_more_criterion(criteria, n, b, a);
        one_more_criterion(criteria, n, a, c);
        one_more_criterion(criteria, n, c, b);
        criteria[n].before_is_a_strict_weak_order(a, b, c);
        criteria[n].before_is_a_strict_weak_order(b, a, c);
    }
}

/// The first criterion that puts one of two documents before the other decides between them, and
/// without such a criterion nothing does.
pub proof fn the_first_criterion_that_differs_decides<C: Criterion>(
    criteria: Seq<C>,
    a: DocumentId,
    b: DocumentId,
)
    ensures
        ranks_before(criteria, a, b) <==> exists|k: int|
            0 <= k < criteria.len() && (#[trigger] criteria[k]).before(a, b) && forall|j: int|
                0 <= j < k ==> !(#[trigger] criteria[j]).before(a, b) && !criteria[j].before(b, a),
        all_tie(criteria, a, b) <==> forall|k: int|
            0 <= k < criteria.len() ==> !(#[trigger] criteria[k]).before(a, b)
                && !criteria[k].before(b, a),
{
    assert forall|k: int| 0 <= k < criteria.len() implies (#[trigger] all_tie(
        criteria.take(k),
        a,
        b,
    ) <==> forall|j: int|
        0 <= j < k ==> !(#[trigger] criteria[j]).before(a, b) && !criteria[j].before(b, a)) by {
        let first = criteria.take(k);
        if all_tie(first, a, b) {
            assert forall|j: int| 0 <= j < k implies !(#[trigger] criteria[j]).before(a, b)
                && !criteria[j].before(b, a) by {
                assert(tie(first[j], a, b));
            }
        }
    }
    if ranks_before(criteria, a, b) {
        let k = choose|k: int|
            0 <= k < criteria.len() && (#[trigger] criteria[k]).before(a, b) && all_tie(
                criteria.take(k),
                a,
                b,
            );
        assert(criteria[k].before(a, b));
    }
    if exists|k: int|
        0 <= k < criteria.len() && (#[trigger] criteria[k]).before(a, b) && forall|j: int|
            0 <= j < k ==> !(#[trigger] criteria[j]).before(a, b) && !criteria[j].before(b, a) {
        let k = choose|k: int|
            0 <= k < criteria.len() && (#[trigger] criteria[k]).before(a, b) && forall|j: int|
                0 <= j < k ==> !(#[trigger] criteria[j]).before(a, b) && !criteria[j].before(
                    b,
                    a,
                );
        assert(criteria[k].before(a, b) && all_tie(criteria.take(k), a, b));
    }
    if all_tie(criteria, a, b) {
        assert forall|k: int| 0 <= k < criteria.len() implies !(#[trigger] criteria[k]).before(
            a,
            b,
        ) && !criteria[k].before(b, a) by {
            assert(tie(criteria[k], a, b));
        }
    }
}

} // verus!
