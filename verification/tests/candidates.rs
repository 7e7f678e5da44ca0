use std::borrow::Cow;
use std::ops::Deref;
use std::rc::Rc;

use bucket_sort::candidates::{collect_matches, group_by_document, try_collect_matches, QueryMatches};
use bucket_sort::{BareMatch, DocIndex, PostingsListView};
use sdset::{Set as SdSet, SetBuf};

fn index(document_id: u64, word_index: u16) -> DocIndex {
    DocIndex { document_id, attribute: 0, word_index, char_index: 0, char_length: 3 }
}

fn query(query_index: usize, input: &str, distance: u8, indexes: Vec<DocIndex>) -> QueryMatches<'static> {
    QueryMatches {
        query_index,
        input: Rc::from(input.as_bytes()),
        distance,
        matches: Rc::new(Cow::Owned(SetBuf::from_dirty(indexes))),
    }
}

fn unsorted(query_index: usize, indexes: Vec<DocIndex>) -> QueryMatches<'static> {
    QueryMatches {
        query_index,
        input: Rc::from(&b"x"[..]),
        distance: 0,
        matches: Rc::new(Cow::Owned(SetBuf::new_unchecked(indexes))),
    }
}

fn bare(document_id: u64, query_index: usize) -> BareMatch<()> {
    BareMatch { document_id, query_index, distance: 0, is_exact: true, postings_list: () }
}

fn positions(found: &BareMatch<PostingsListView<'static>>) -> Vec<DocIndex> {
    found.postings_list.deref().as_slice().to_vec()
}

#[test]
fn matches_are_collected_word_after_word() {
    let queries = vec![
        query(3, "rust", 0, vec![index(1, 0), index(1, 5), index(4, 2), index(7, 1)]),
        query(5, "rusty", 1, vec![index(4, 9)]),
    ];
    let docids = SetBuf::from_dirty(vec![7, 1, 4]);
    let found = collect_matches(&queries, docids.as_set());
    assert_eq!(found.len(), 4);
    assert_eq!((found[0].document_id, found[0].query_index, found[0].distance), (1, 3, 0));
    assert!(found[0].is_exact);
    assert_eq!(found[0].postings_list.input(), b"rust");
    assert_eq!(positions(&found[0]), vec![index(1, 0), index(1, 5)]);
    assert_eq!(positions(&found[1]), vec![index(4, 2)]);
    assert_eq!(positions(&found[2]), vec![index(7, 1)]);
    assert_eq!((found[3].document_id, found[3].query_index, found[3].distance), (4, 5, 1));
    assert_eq!(found[3].postings_list.input(), b"rusty");
}

#[test]
fn matches_in_other_documents_are_left_out() {
    let queries = vec![
        query(0, "rust", 0, vec![index(1, 0), index(2, 3), index(2, 4), index(3, 1)]),
        query(1, "go", 2, vec![index(1, 7), index(3, 8)]),
    ];
    let docids = SetBuf::from_dirty(vec![2, 3]);
    let found = collect_matches(&queries, docids.as_set());
    let documents: Vec<u64> = found.iter().map(|m| m.document_id).collect();
    assert_eq!(documents, vec![2, 3, 3]);
    let kept: Vec<DocIndex> = found.iter().flat_map(|m| positions(m)).collect();
    assert_eq!(kept, vec![index(2, 3), index(2, 4), index(3, 1), index(3, 8)]);
    assert!(found.iter().all(|m| positions(m).iter().all(|i| i.document_id == m.document_id)));
}

#[test]
fn nothing_is_collected_from_nothing() {
    let none: SetBuf<u64> = SetBuf::from_dirty(vec![]);
    assert!(collect_matches(&vec![], none.as_set()).is_empty());
    let queries = vec![query(0, "rust", 0, vec![index(1, 0)]), query(1, "go", 0, vec![])];
    assert!(collect_matches(&queries, none.as_set()).is_empty());
}

#[test]
fn sorted_lists_are_collected_without_conditions() {
    let queries = vec![query(0, "rust", 0, vec![index(1, 0), index(2, 3)])];
    let docids = SetBuf::from_dirty(vec![1, 2]);
    let found = try_collect_matches(&queries, docids.as_set()).unwrap();
    assert_eq!(found.len(), 2);
}

#[test]
fn lists_out_of_order_are_refused() {
    let docids = SetBuf::from_dirty(vec![1, 2]);
    let queries = vec![unsorted(0, vec![index(2, 0), index(1, 0)])];
    assert!(try_collect_matches(&queries, docids.as_set()).is_none());
    let queries = vec![query(0, "rust", 0, vec![index(1, 0)])];
    assert!(try_collect_matches(&queries, SdSet::new_unchecked(&[2, 1])).is_none());
    assert!(try_collect_matches(&queries, SdSet::new_unchecked(&[1, 1])).is_none());
}

#[test]
fn matches_are_gathered_by_document() {
    let matches = vec![bare(7, 0), bare(2, 1), bare(7, 2), bare(3, 0), bare(2, 5), bare(7, 9)];
    let documents = group_by_document(matches);
    let ids: Vec<u64> = documents.iter().map(|d| d.id).collect();
    assert_eq!(ids, vec![2, 3, 7]);
    let mut words: Vec<Vec<usize>> = documents
        .iter()
        .map(|d| d.matches.iter().map(|m| m.query_index).collect())
        .collect();
    for word in words.iter_mut() {
        word.sort();
    }
    assert_eq!(words, vec![vec![1, 5], vec![0], vec![0, 2, 9]]);
    assert!(documents.iter().all(|d| d.matches.iter().all(|m| m.document_id == d.id)));
}

#[test]
fn no_match_gives_no_document() {
    let matches: Vec<BareMatch<()>> = vec![];
    assert!(group_by_document(matches).is_empty());
}

#[test]
fn candidates_are_the_documents_with_a_match() {
    let queries = vec![
        query(0, "rust", 0, vec![index(1, 0), index(2, 3)]),
        query(1, "go", 0, vec![index(2, 7), index(9, 8)]),
    ];
    let docids = SetBuf::from_dirty(vec![1, 2, 5]);
    let documents = group_by_document(collect_matches(&queries, docids.as_set()));
    let ids: Vec<u64> = documents.iter().map(|d| d.id).collect();
    assert_eq!(ids, vec![1, 2]);
    assert_eq!(documents[1].matches.len(), 2);
}
