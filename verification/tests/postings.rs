use std::borrow::Cow;
use std::ops::Deref;
use std::rc::Rc;

use bucket_sort::{DocIndex, PostingsListView, SimpleMatch};
use sdset::{Set as SdSet, SetBuf};

fn index(document_id: u64, word_index: u16) -> DocIndex {
    DocIndex { document_id, attribute: 0, word_index, char_index: 0, char_length: 3 }
}

fn list() -> Vec<DocIndex> {
    vec![index(1, 0), index(1, 4), index(2, 1), index(5, 2), index(5, 3)]
}

fn word(text: &str) -> Rc<[u8]> {
    Rc::from(text.as_bytes())
}

#[test]
fn original_view_shows_the_whole_list() {
    let indexes = list();
    let set = SdSet::new(&indexes).unwrap();
    let view = PostingsListView::original(word("rust"), Rc::new(Cow::Borrowed(set)));
    assert_eq!(view.len(), 5);
    assert_eq!(view.input(), b"rust");
    assert_eq!(view.deref().as_slice(), indexes.as_slice());
    let same: &SdSet<DocIndex> = view.as_ref();
    assert_eq!(same.as_slice(), indexes.as_slice());
}

#[test]
fn original_view_of_an_owned_list() {
    let owned = SetBuf::from_dirty(vec![index(2, 1), index(1, 0), index(1, 0)]);
    let view = PostingsListView::original(word("rust"), Rc::new(Cow::Owned(owned)));
    assert_eq!(view.len(), 2);
    assert_eq!(view.deref().as_slice(), &[index(1, 0), index(2, 1)]);
}

#[test]
fn empty_view() {
    let owned: SetBuf<DocIndex> = SetBuf::from_dirty(vec![]);
    let view = PostingsListView::original(word(""), Rc::new(Cow::Owned(owned)));
    assert_eq!(view.len(), 0);
    assert_eq!(view.input(), b"");
    assert!(view.deref().as_slice().is_empty());
    assert_eq!(view.range(0, 0).len(), 0);
}

#[test]
fn range_shows_a_part() {
    let indexes = list();
    let set = SdSet::new(&indexes).unwrap();
    let view = PostingsListView::original(word("rust"), Rc::new(Cow::Borrowed(set)));
    let part = view.range(1, 3);
    assert_eq!(part.len(), 3);
    assert_eq!(part.input(), b"rust");
    assert_eq!(part.deref().as_slice(), &indexes[1..4]);
    assert_eq!(view.range(5, 0).len(), 0);
    assert_eq!(view.range(0, 5).deref().as_slice(), indexes.as_slice());
}

#[test]
fn range_of_a_range_is_a_range_of_the_list() {
    let indexes = list();
    let set = SdSet::new(&indexes).unwrap();
    let view = PostingsListView::original(word("rust"), Rc::new(Cow::Borrowed(set)));
    let inner = view.range(1, 4).range(2, 2);
    assert_eq!(inner.deref().as_slice(), view.range(3, 2).deref().as_slice());
    assert_eq!(inner.deref().as_slice(), &[index(5, 2), index(5, 3)]);
}

#[test]
fn rewritten_view_keeps_the_word() {
    let indexes = list();
    let set = SdSet::new(&indexes).unwrap();
    let mut view = PostingsListView::original(word("rust"), Rc::new(Cow::Borrowed(set))).range(0, 2);
    view.rewrite_with(SetBuf::from_dirty(vec![index(9, 9)]));
    assert_eq!(view.input(), b"rust");
    assert_eq!(view.len(), 1);
    assert_eq!(view.deref().as_slice(), &[index(9, 9)]);
    view.rewrite_with(SetBuf::from_dirty(vec![index(8, 1), index(7, 1)]));
    assert_eq!(view.input(), b"rust");
    assert_eq!(view.deref().as_slice(), &[index(7, 1), index(8, 1)]);
    let other = PostingsListView::rewritten(word("go"), SetBuf::from_dirty(vec![index(3, 0)]));
    assert_eq!(other.input(), b"go");
    assert_eq!(other.len(), 1);
}

#[test]
fn clones_show_the_same() {
    let indexes = list();
    let set = SdSet::new(&indexes).unwrap();
    let view = PostingsListView::original(word("rust"), Rc::new(Cow::Borrowed(set))).range(2, 2);
    let copy = view.clone();
    assert_eq!(copy.input(), view.input());
    assert_eq!(copy.deref().as_slice(), view.deref().as_slice());
    let mut rewritten = view.clone();
    rewritten.rewrite_with(SetBuf::from_dirty(vec![index(9, 9)]));
    let second = rewritten.clone();
    assert_eq!(second.deref().as_slice(), &[index(9, 9)]);
    assert_eq!(view.deref().as_slice(), &indexes[2..4]);
}

#[test]
fn simple_matches_are_ordered_by_their_fields() {
    let first = SimpleMatch {
        query_index: 0,
        distance: 2,
        attribute: 1,
        word_index: 4,
        is_exact: false,
    };
    let second = SimpleMatch { query_index: 1, distance: 0, ..first };
    assert!(first < second);
    assert_eq!(first, first.clone());
    assert_ne!(first, second);
    assert!(SimpleMatch { word_index: 5, ..first } > first);
}
