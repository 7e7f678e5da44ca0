use std::cmp::Ordering;

use bucket_sort::documents::DocumentSeq;
use bucket_sort::{bucket_sort, Criterion, DocumentId, RawDocument};

struct Scores {
    scores: Vec<u32>,
    fails_on: Option<DocumentId>,
}

impl Scores {
    fn score(&self, document: &RawDocument<u32>) -> u32 {
        self.scores[document.id as usize]
    }
}

impl Criterion for Scores {
    type Context = Vec<usize>;
    type Matches = u32;
    type Error = String;

    fn before(&self, _a: DocumentId, _b: DocumentId) -> bool {
        unreachable!()
    }

    fn prepared(&self, _context: Vec<usize>, _document: RawDocument<u32>) -> bool {
        unreachable!()
    }

    fn carried(_before: u32, _after: u32) -> bool {
        unreachable!()
    }

    fn advanced(_before: Vec<usize>, _after: Vec<usize>) -> bool {
        unreachable!()
    }

    fn prepares(
        &self,
        _before: Vec<usize>,
        _documents: DocumentSeq<u32>,
        _after: Vec<usize>,
        _ready: DocumentSeq<u32>,
    ) -> bool {
        unreachable!()
    }

    fn fails(
        &self,
        _before: Vec<usize>,
        _documents: DocumentSeq<u32>,
        _after: Vec<usize>,
        _error: String,
    ) -> bool {
        unreachable!()
    }

    fn before_is_a_strict_weak_order(&self, _a: DocumentId, _b: DocumentId, _c: DocumentId) {
        unreachable!()
    }

    fn carried_is_a_preorder(_a: u32, _b: u32, _c: u32) {
        unreachable!()
    }

    fn advanced_is_a_preorder(_a: Vec<usize>, _b: Vec<usize>, _c: Vec<usize>) {
        unreachable!()
    }

    fn prepare(&self, context: &mut Vec<usize>, documents: &mut [RawDocument<u32>]) -> Result<(), String> {
        context.push(documents.len());
        for document in documents.iter_mut() {
            if self.fails_on == Some(document.id) {
                return Err(format!("document {}", document.id));
            }
            document.matches += 1;
        }
        Ok(())
    }

    fn evaluate(&self, _context: &Vec<usize>, a: &RawDocument<u32>, b: &RawDocument<u32>) -> Ordering {
        self.score(b).cmp(&self.score(a))
    }

    fn eq(&self, _context: &Vec<usize>, a: &RawDocument<u32>, b: &RawDocument<u32>) -> bool {
        self.score(a) == self.score(b)
    }
}

struct Reversing {
    scores: Vec<u32>,
}

impl Criterion for Reversing {
    type Context = ();
    type Matches = u32;
    type Error = String;

    fn before(&self, _a: DocumentId, _b: DocumentId) -> bool {
        unreachable!()
    }

    fn prepared(&self, _context: (), _document: RawDocument<u32>) -> bool {
        unreachable!()
    }

    fn carried(_before: u32, _after: u32) -> bool {
        unreachable!()
    }

    fn advanced(_before: (), _after: ()) -> bool {
        unreachable!()
    }

    fn prepares(
        &self,
        _before: (),
        _documents: DocumentSeq<u32>,
        _after: (),
        _ready: DocumentSeq<u32>,
    ) -> bool {
        unreachable!()
    }

    fn fails(&self, _before: (), _documents: DocumentSeq<u32>, _after: (), _error: String) -> bool {
        unreachable!()
    }

    fn before_is_a_strict_weak_order(&self, _a: DocumentId, _b: DocumentId, _c: DocumentId) {
        unreachable!()
    }

    fn carried_is_a_preorder(_a: u32, _b: u32, _c: u32) {
        unreachable!()
    }

    fn advanced_is_a_preorder(_a: (), _b: (), _c: ()) {
        unreachable!()
    }

    fn prepare(&self, _context: &mut (), documents: &mut [RawDocument<u32>]) -> Result<(), String> {
        documents.reverse();
        Ok(())
    }

    fn evaluate(&self, _context: &(), a: &RawDocument<u32>, b: &RawDocument<u32>) -> Ordering {
        self.scores[b.id as usize].cmp(&self.scores[a.id as usize])
    }

    fn eq(&self, _context: &(), a: &RawDocument<u32>, b: &RawDocument<u32>) -> bool {
        self.scores[a.id as usize] == self.scores[b.id as usize]
    }
}

fn by(scores: Vec<u32>) -> Scores {
    Scores { scores, fails_on: None }
}

fn documents(n: u64) -> Vec<RawDocument<u32>> {
    (0..n).map(|id| RawDocument { id, matches: 0 }).collect()
}

fn ids(documents: &Vec<RawDocument<u32>>) -> Vec<u64> {
    documents.iter().map(|d| d.id).collect()
}

#[test]
fn one_criterion_sorts() {
    let criteria = vec![by(vec![3, 9, 1, 7])];
    let mut context = Vec::new();
    let found = bucket_sort(documents(4), 0..10, &criteria, &mut context).unwrap();
    assert_eq!(ids(&found), vec![1, 3, 0, 2]);
    assert!(found.iter().all(|d| d.matches == 1));
}

#[test]
fn ties_are_broken_by_the_next_criterion() {
    let criteria = vec![by(vec![1, 2, 1, 2, 1]), by(vec![5, 1, 9, 4, 7])];
    let mut context = Vec::new();
    let found = bucket_sort(documents(5), 0..5, &criteria, &mut context).unwrap();
    assert_eq!(ids(&found), vec![3, 1, 2, 4, 0]);
    assert_eq!(context, vec![5, 2, 3]);
}

#[test]
fn an_earlier_criterion_is_never_overruled() {
    let criteria = vec![by(vec![2, 1]), by(vec![0, 100])];
    let found = bucket_sort(documents(2), 0..2, &criteria, &mut Vec::new()).unwrap();
    assert_eq!(ids(&found), vec![0, 1]);
}

#[test]
fn documents_that_tie_on_all_criteria_stay_together() {
    let criteria = vec![by(vec![1, 2, 1]), by(vec![4, 4, 4])];
    let found = bucket_sort(documents(3), 0..3, &criteria, &mut Vec::new()).unwrap();
    assert_eq!(found[0].id, 1);
    let mut rest = ids(&found).split_off(1);
    rest.sort();
    assert_eq!(rest, vec![0, 2]);
}

#[test]
fn groups_behind_the_range_are_not_sorted_further() {
    let criteria = vec![by(vec![3, 3, 2, 2, 1]), by(vec![1, 2, 3, 4, 5])];
    let mut context = Vec::new();
    let found = bucket_sort(documents(5), 0..2, &criteria, &mut context).unwrap();
    assert_eq!(ids(&found), vec![1, 0]);
    assert_eq!(context, vec![5, 2]);
}

#[test]
fn a_page_in_the_middle() {
    let criteria = vec![by(vec![10, 20, 30, 40, 50, 60])];
    let found = bucket_sort(documents(6), 2..4, &criteria, &mut Vec::new()).unwrap();
    assert_eq!(ids(&found), vec![3, 2]);
}

#[test]
fn two_pages_make_one_page() {
    let criteria = vec![by(vec![10, 20, 30, 40, 50, 60])];
    let mut first = ids(&bucket_sort(documents(6), 0..3, &criteria, &mut Vec::new()).unwrap());
    let second = ids(&bucket_sort(documents(6), 3..5, &criteria, &mut Vec::new()).unwrap());
    let both = ids(&bucket_sort(documents(6), 0..5, &criteria, &mut Vec::new()).unwrap());
    first.extend(second);
    assert_eq!(first, both);
    assert_eq!(both, vec![5, 4, 3, 2, 1]);
}

#[test]
fn a_range_behind_the_documents_is_empty() {
    let criteria = vec![by(vec![1, 2, 3])];
    assert!(bucket_sort(documents(3), 5..9, &criteria, &mut Vec::new()).unwrap().is_empty());
    assert!(bucket_sort(documents(3), 1..1, &criteria, &mut Vec::new()).unwrap().is_empty());
    let found = bucket_sort(documents(3), 2..9, &criteria, &mut Vec::new()).unwrap();
    assert_eq!(ids(&found), vec![0]);
}

#[test]
fn a_range_that_ends_before_it_starts_is_empty() {
    let criteria = vec![by(vec![1, 2, 3])];
    let range = std::ops::Range { start: 2, end: 1 };
    assert!(bucket_sort(documents(3), range, &criteria, &mut Vec::new()).unwrap().is_empty());
}

#[test]
fn without_criteria_the_order_stays() {
    let criteria: Vec<Scores> = vec![];
    let found = bucket_sort(documents(5), 1..4, &criteria, &mut Vec::new()).unwrap();
    assert_eq!(ids(&found), vec![1, 2, 3]);
    assert!(found.iter().all(|d| d.matches == 0));
}

#[test]
fn no_documents_give_no_results() {
    let criteria = vec![by(vec![])];
    let found = bucket_sort(vec![], 0..10, &criteria, &mut Vec::new()).unwrap();
    assert!(found.is_empty());
}

#[test]
fn every_criterion_prepares_the_documents_of_the_page() {
    let criteria = vec![by(vec![1, 2, 3, 4]), by(vec![0; 4]), by(vec![0; 4])];
    let found = bucket_sort(documents(4), 1..3, &criteria, &mut Vec::new()).unwrap();
    assert_eq!(ids(&found), vec![2, 1]);
    assert!(found.iter().all(|d| d.matches == 3));
}

#[test]
fn criteria_take_part_even_in_an_empty_range() {
    let criteria = vec![by(vec![1, 2, 2]), by(vec![0, 1, 2]), by(vec![0; 3])];
    let mut context = Vec::new();
    assert!(bucket_sort(documents(3), 0..0, &criteria, &mut context).unwrap().is_empty());
    assert_eq!(context, vec![3, 2, 1]);
    let failing = Scores { scores: vec![0; 3], fails_on: Some(2) };
    let criteria = vec![by(vec![1, 2, 2]), failing];
    let error = bucket_sort(documents(3), 0..0, &criteria, &mut Vec::new()).err();
    assert_eq!(error, Some(String::from("document 2")));
}

#[test]
fn the_first_criterion_prepares_even_no_documents() {
    let criteria = vec![by(vec![]), by(vec![])];
    let mut context = Vec::new();
    assert!(bucket_sort(vec![], 0..5, &criteria, &mut context).unwrap().is_empty());
    assert_eq!(context, vec![0]);
}

#[test]
fn documents_may_change_places_when_they_are_prepared() {
    let criteria = vec![Reversing { scores: vec![3, 9, 1, 7] }];
    let found = bucket_sort(documents(4), 0..4, &criteria, &mut ()).unwrap();
    assert_eq!(ids(&found), vec![1, 3, 0, 2]);
}

#[test]
fn a_failure_on_a_single_document_ends_the_ranking() {
    let failing = Scores { scores: vec![0; 2], fails_on: Some(0) };
    let criteria = vec![by(vec![1, 2]), failing, by(vec![0; 2])];
    let mut context = Vec::new();
    let error = bucket_sort(documents(2), 0..2, &criteria, &mut context).err();
    assert_eq!(error, Some(String::from("document 0")));
    assert_eq!(context, vec![2, 1, 1]);
}

#[test]
fn the_error_of_a_criterion_ends_the_ranking() {
    let failing = Scores { scores: vec![1, 1, 1], fails_on: Some(2) };
    let criteria = vec![by(vec![1, 2, 3]), failing];
    let error = bucket_sort(documents(3), 0..3, &criteria, &mut Vec::new()).err();
    assert_eq!(error, Some(String::from("document 2")));
}
