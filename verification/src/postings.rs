//! Postings lists: where a word stands in the documents.

use std::borrow::Cow;
use std::ops::Deref;
use std::rc::Rc;

use sdset::{Set as SdSet, SetBuf};
use vstd::prelude::*;

use crate::documents::DocIndex;

verus! {

/// `sdset::Set`, a slice of items that are sorted and stand there once each.
#[verifier::external_type_specification]
#[verifier::external_body]
#[verifier::reject_recursive_types(T)]
pub struct ExSet<T>(SdSet<T>);

/// `sdset::SetBuf`, an owned `sdset::Set`.
#[verifier::external_type_specification]
#[verifier::external_body]
#[verifier::reject_recursive_types(T)]
pub struct ExSetBuf<T>(SetBuf<T>);

/// The items of a borrowed postings list, in their order.
pub uninterp spec fn set_items(set: &SdSet<DocIndex>) -> Seq<DocIndex>;

/// The items of an owned postings list, in their order.
pub uninterp spec fn set_buf_items(set: &SetBuf<DocIndex>) -> Seq<DocIndex>;

/// Calls `sdset::Set::as_slice`: the slice of all items.
#[verifier::external_body]
pub(crate) fn set_as_slice(set: &SdSet<DocIndex>) -> (slice: &[DocIndex])
    ensures
        slice@ == set_items(set),
{
    set.as_slice()
}

/// Calls `sdset::Set::new_unchecked`: the set of the items of a slice, in their order.
#[verifier::external_body]
fn set_new_unchecked(slice: &[DocIndex]) -> (set: &SdSet<DocIndex>)
    ensures
        set_items(set) == slice@,
{
    SdSet::new_unchecked(slice)
}

/// Calls `sdset::SetBuf::as_set`: the borrowed form of an owned set.
#[verifier::external_body]
fn set_buf_as_set(buf: &SetBuf<DocIndex>) -> (set: &SdSet<DocIndex>)
    ensures
        set_items(set) == set_buf_items(buf),
{
    buf.as_set()
}

/// Calls `clone` of `sdset::SetBuf`: a set of the same items.
#[verifier::external_body]
fn set_buf_clone(buf: &SetBuf<DocIndex>) -> (copy: SetBuf<DocIndex>)
    ensures
        set_buf_items(&copy) == set_buf_items(buf),
{
    buf.clone()
}

/// The items of a postings list that is borrowed or owned, in their order.
pub open spec fn cow_items(list: &Cow<'_, SdSet<DocIndex>>) -> Seq<DocIndex> {
    match list {
        Cow::Borrowed(set) => set_items(set),
        Cow::Owned(buf) => set_buf_items(buf),
    }
}

/// The borrowed form of a postings list.
pub(crate) fn cow_as_set<'a>(list: &'a Cow<'_, SdSet<DocIndex>>) -> (set: &'a SdSet<DocIndex>)
    ensures
        set_items(set) == cow_items(list),
{
    match list {
        Cow::Borrowed(set) => set,
        Cow::Owned(buf) => set_buf_as_set(buf),
    }
}

/// Consecutive items of a postings list that other views share.
pub struct PostingsWindow<'txn> {
    postings_list: Rc<Cow<'txn, SdSet<DocIndex>>>,
    offset: usize,
    len: usize,
}

impl<'txn> PostingsWindow<'txn> {
    /// The window lies inside its list.
    #[verifier::type_invariant]
    closed spec fn inside(self) -> bool {
        &&& self.offset + self.len <= cow_items(&*self.postings_list).len()
        &&& self.offset + self.len <= usize::MAX
    }

    /// The items that stand in the window.
    pub closed spec fn items(self) -> Seq<DocIndex> {
        cow_items(&*self.postings_list).subrange(
            self.offset as int,
            self.offset as int + self.len as int,
        )
    }
}

/// What a [`PostingsListView`] shows.
pub struct PostingsModel {
    /// The word to which the postings list belongs.
    pub input: Seq<u8>,
    /// The positions, in the order of the list.
    pub indexes: Seq<DocIndex>,
    /// Whether the positions were replaced.
    pub rewritten: bool,
}

/// A postings list, or a part of one, with the word to which it belongs.
pub enum PostingsListView<'txn> {
    /// A window of a list that other views share.
    Original { input: Rc<[u8]>, window: PostingsWindow<'txn> },
    /// A list of its own.
    Rewritten { input: Rc<[u8]>, postings_list: SetBuf<DocIndex> },
}

impl<'txn> View for PostingsListView<'txn> {
    type V = PostingsModel;

    open spec fn view(&self) -> PostingsModel {
        match self {
            PostingsListView::Original { input, window } => PostingsModel {
                input: input@,
                indexes: window.items(),
                rewritten: false,
            },
            PostingsListView::Rewritten { input, postings_list } => PostingsModel {
                input: input@,
                indexes: set_buf_items(&postings_list),
                rewritten: true,
            },
        }
    }
}

impl<'txn> PostingsListView<'txn> {
    /// A view of a whole postings list.
    pub fn original(input: Rc<[u8]>, postings_list: Rc<Cow<'txn, SdSet<DocIndex>>>) -> (view:
        PostingsListView<'txn>)
        ensures
            view@ == (PostingsModel {
                input: input@,
                indexes: cow_items(&*postings_list),
                rewritten: false,
            }),
    {
        let len = set_as_slice(cow_as_set(&*postings_list)).len();
        let window = PostingsWindow { postings_list, offset: 0, len };
        assert(window.items() =~= cow_items(&*postings_list));
        PostingsListView::Original { input, window }
    }

    /// A view of a postings list of its own.
    pub fn rewritten(input: Rc<[u8]>, postings_list: SetBuf<DocIndex>) -> (view: PostingsListView<
        'txn,
    >)
        ensures
            view@ == (PostingsModel {
                input: input@,
                indexes: set_buf_items(&postings_list),
                rewritten: true,
            }),
    {
        PostingsListView::Rewritten { input, postings_list }
    }

    /// Replaces the positions of the view.
    pub fn rewrite_with(&mut self, postings_list: SetBuf<DocIndex>)
        ensures
            final(self)@ == (PostingsModel {
                input: old(self)@.input,
                indexes: set_buf_items(&postings_list),
                rewritten: true,
            }),
    {
        let input = match self {
            PostingsListView::Original { input, .. } => input.clone(),
            PostingsListView::Rewritten { input, .. } => input.clone(),
        };
        *self = PostingsListView::rewritten(input, postings_list);
    }

    /// The number of positions.
    pub fn len(&self) -> (len: usize)
        ensures
            len == self@.indexes.len(),
    {
        match self {
            PostingsListView::Original { window, .. } => {
                proof {
                    use_type_invariant(window);
                }
                window.len
            },
            PostingsListView::Rewritten { postings_list, .. } => set_as_slice(
                set_buf_as_set(postings_list),
            ).len(),
        }
    }

    /// The word to which the postings list belongs.
    pub fn input(&self) -> (input: &[u8])
        ensures
            input@ == self@.input,
    {
        match self {
            PostingsListView::Original { input, .. } => input,
            PostingsListView::Rewritten { input, .. } => input,
        }
    }

    /// A view of the `range_len` positions from `range_offset` on.
    pub fn range(&self, range_offset: usize, range_len: usize) -> (view: PostingsListView<'txn>)
        requires
            !self@.rewritten,
            range_offset + range_len <= self@.indexes.len(),
        ensures
            view@ == (PostingsModel {
                input: self@.input,
                indexes: self@.indexes.subrange(
                    range_offset as int,
                    range_offset as int + range_len as int,
                ),
                rewritten: false,
            }),
    {
        match self {
            PostingsListView::Original { input, window } => {
                proof {
                    use_type_invariant(window);
                }
                let part = PostingsWindow {
                    postings_list: window.postings_list.clone(),
                    offset: window.offset + range_offset,
                    len: range_len,
                };
                assert(part.items() =~= window.items().subrange(
                    range_offset as int,
                    range_offset as int + range_len as int,
                ));
                PostingsListView::Original { input: input.clone(), window: part }
            },
            PostingsListView::Rewritten { .. } => vstd::pervasive::unreached(),
        }
    }
}

impl<'txn> Deref for PostingsListView<'txn> {
    type Target = SdSet<DocIndex>;

    /// The positions, as a set.
    fn deref(&self) -> (set: &SdSet<DocIndex>)
        ensures
            set_items(set) == self@.indexes,
    {
        match self {
            PostingsListView::Original { window, .. } => {
                proof {
                    use_type_invariant(window);
                }
                let items = set_as_slice(cow_as_set(&*window.postings_list));
                set_new_unchecked(&items[window.offset..window.offset + window.len])
            },
            PostingsListView::Rewritten { postings_list, .. } => set_buf_as_set(postings_list),
        }
    }
}

impl<'txn> AsRef<SdSet<DocIndex>> for PostingsListView<'txn> {
    /// The positions, as a set.
    fn as_ref(&self) -> (set: &SdSet<DocIndex>)
        ensures
            set_items(set) == self@.indexes,
    {
        self.deref()
    }
}

impl<'txn> Clone for PostingsListView<'txn> {
    /// A view of the same positions.
    fn clone(&self) -> (copy: Self)
        ensures
            copy@ == self@,
    {
        match self {
            PostingsListView::Original { input, window } => {
                proof {
                    use_type_invariant(window);
                }
                PostingsListView::Original {
                    input: input.clone(),
                    window: PostingsWindow {
                        postings_list: window.postings_list.clone(),
                        offset: window.offset,
                        len: window.len,
                    },
                }
            },
            PostingsListView::Rewritten { input, postings_list } => PostingsListView::Rewritten {
                input: input.clone(),
                postings_list: set_buf_clone(postings_list),
            },
        }
    }
}

/// A part of a part of a postings list is a part of the list.
pub proof fn range_of_range(
    view: PostingsModel,
    offset: int,
    len: int,
    inner_offset: int,
    inner_len: int,
)
    requires
        0 <= offset,
        0 <= inner_offset,
        0 <= inner_len,
        inner_offset + inner_len <= len,
        offset + len <= view.indexes.len(),
    ensures
        view.indexes.subrange(offset, offset + len).subrange(
            inner_offset,
            inner_offset + inner_len,
        ) == view.indexes.subrange(
            offset + inner_offset,
            offset + inner_offset + inner_len,
        ),
{
    assert(view.indexes.subrange(offset, offset + len).subrange(
        inner_offset,
        inner_offset + inner_len,
    ) =~= view.indexes.subrange(offset + inner_offset, offset + inner_offset + inner_len));
}

/// A postings list shows the items of its set, borrowed or owned, all of them and in their order.
pub proof fn lists_show_their_sets(list: &Cow<'_, SdSet<DocIndex>>)
    ensures
        match list {
            Cow::Borrowed(set) => cow_items(list) == set_items(set),
            Cow::Owned(buf) => cow_items(list) == set_buf_items(buf),
        },
{
}

} // verus!
