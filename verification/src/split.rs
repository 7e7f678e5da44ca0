//! Words split in two.

use vstd::prelude::*;
use vstd::string::StrSliceExecFns;

verus! {

/// The number of ways to split a word in two parts that are not empty.
pub open spec fn split_count(word: Seq<char>) -> int {
    if word.len() == 0 {
        0
    } else {
        word.len() - 1
    }
}

/// The ways to split a word in two parts that are not empty, by increasing length of the first one.
pub fn splits(word: &str) -> (splits: Vec<(&str, &str)>)
    ensures
        splits@.len() == split_count(word@),
        word@.len() == 0 ==> splits@.len() == 0,
        word@.len() > 0 ==> splits@.len() + 1 == word@.len(),
        forall|k: int|
            0 <= k < splits@.len() ==> (#[trigger] splits@[k]).0@ == word@.take(k + 1)
                && splits@[k].1@ == word@.skip(k + 1),
{
    let len = word.unicode_len();
    let mut splits: Vec<(&str, &str)> = Vec::new();
    let mut i: usize = 1;
    while i < len
        invariant
            len == word@.len(),
            1 <= i,
            i <= len || len == 0 && i == 1,
            splits@.len() == i - 1,
            forall|k: int|
                0 <= k < splits@.len() ==> (#[trigger] splits@[k]).0@ == word@.take(k + 1)
                    && splits@[k].1@ == word@.skip(k + 1),
        decreases len - i,
    {
        let left = word.substring_char(0, i);
        let right = word.substring_char(i, len);
        splits.push((left, right));
        i = i + 1;
    }
    splits
}

/// The frequency of the rarer part of a split.
pub open spec fn min_frequency(frequencies: (usize, usize)) -> usize {
    if frequencies.0 <= frequencies.1 {
        frequencies.0
    } else {
        frequencies.1
    }
}

/// Whether split `k` is the first one whose rarer part is the most frequent one, and it occurs.
pub open spec fn is_best(frequencies: Seq<(usize, usize)>, k: int) -> bool {
    &&& 0 <= k < frequencies.len()
    &&& min_frequency(frequencies[k]) > 0
    &&& forall|j: int|
        0 <= j < frequencies.len() ==> min_frequency(#[trigger] frequencies[j]) <= min_frequency(
            frequencies[k],
        )
    &&& forall|j: int|
        0 <= j < k ==> min_frequency(#[trigger] frequencies[j]) < min_frequency(frequencies[k])
}

/// The best of the ways to split a word, given how many documents hold the two parts of each: the
/// first one whose rarer part is in the most documents. `None` if every split has a part that is in
/// no document.
pub fn split_best_frequency<'a>(word: &'a str, frequencies: &Vec<(usize, usize)>) -> (best: Option<
    (&'a str, &'a str),
>)
    requires
        frequencies@.len() == split_count(word@),
    ensures
        best is None <==> forall|k: int|
            0 <= k < frequencies@.len() ==> min_frequency(#[trigger] frequencies@[k]) == 0,
        best matches Some((left, right)) ==> left@ + right@ == word@ && exists|k: int| #[trigger]
            is_best(frequencies@, k) && left@ == word@.take(k + 1),
        best is None <==> forall|k: int|
            0 <= k < frequencies@.len() ==> (#[trigger] frequencies@[k]).0 == 0
                || frequencies@[k].1 == 0,
        best matches Some((left, right)) ==> {
            let (l, r) = frequencies@[left@.len() - 1];
            &&& 0 < left@.len() < word@.len()
            &&& left@ == word@.take(left@.len() as int)
            &&& right@ == word@.skip(left@.len() as int)
            &&& 0 < l
            &&& 0 < r
            &&& forall|j: int|
                0 <= j < frequencies@.len() ==> {
                    let (a, b) = #[trigger] frequencies@[j];
                    a <= l && a <= r || b <= l && b <= r
                }
            &&& forall|j: int|
                0 <= j < left@.len() - 1 ==> {
                    let (a, b) = #[trigger] frequencies@[j];
                    a < l && a < r || b < l && b < r
                }
        },
{
    let mut best: Option<(usize, usize)> = None;
    let mut i: usize = 0;
    while i < frequencies.len()
        invariant
            i <= frequencies@.len(),
            best is None <==> forall|k: int|
                0 <= k < i ==> min_frequency(#[trigger] frequencies@[k]) == 0,
            best matches Some((freq, k)) ==> {
                &&& k < i
                &&& freq == min_frequency(frequencies@[k as int]) > 0
                &&& forall|j: int| 0 <= j < i ==> min_frequency(#[trigger] frequencies@[j]) <= freq
                &&& forall|j: int| 0 <= j < k ==> min_frequency(#[trigger] frequencies@[j]) < freq
            },
        decreases frequencies@.len() - i,
    {
        let (left_freq, right_freq) = frequencies[i];
        let min_freq = if left_freq <= right_freq {
            left_freq
        } else {
            right_freq
        };
        assert(min_freq == min_frequency(frequencies@[i as int]));
        let better = match best {
            None => true,
            Some((old, _)) => min_freq > old,
        };
        if min_freq != 0 && better {
            best = Some((min_freq, i));
        }
        i = i + 1;
    }
    match best {
        None => None,
        Some((_, k)) => {
            let len = word.unicode_len();
            let left = word.substring_char(0, k + 1);
            let right = word.substring_char(k + 1, len);
            proof {
                assert(is_best(frequencies@, k as int));
                assert(left@ =~= word@.take(k + 1));
                assert(left@ + right@ =~= word@);
            }
            Some((left, right))
        },
    }
}

/// The frequency of a split is that of one of its parts, and no part is rarer.
pub proof fn a_split_counts_by_its_rarer_part(frequencies: (usize, usize))
    ensures
        min_frequency(frequencies) <= frequencies.0,
        min_frequency(frequencies) <= frequencies.1,
        min_frequency(frequencies) == frequencies.0 || min_frequency(frequencies)
            == frequencies.1,
{
}

/// A split is the best one just if both of its parts occur, every split has a part that is at most
/// as frequent as both, and every earlier split one that is less frequent than both.
pub proof fn best_split_by_frequencies(frequencies: Seq<(usize, usize)>, k: int)
    requires
        0 <= k < frequencies.len(),
    ensures
        is_best(frequencies, k) <==> {
            let (l, r) = frequencies[k];
            &&& 0 < l
            &&& 0 < r
            &&& forall|j: int|
                0 <= j < frequencies.len() ==> {
                    let (a, b) = #[trigger] frequencies[j];
                    a <= l && a <= r || b <= l && b <= r
                }
            &&& forall|j: int|
                0 <= j < k ==> {
                    let (a, b) = #[trigger] frequencies[j];
                    a < l && a < r || b < l && b < r
                }
        },
{
    let (l, r) = frequencies[k];
    assert forall|j: int| 0 <= j < frequencies.len() implies {
        let (a, b) = #[trigger] frequencies[j];
        (min_frequency(frequencies[j]) <= min_frequency(frequencies[k]) <==> a <= l && a <= r || b
            <= l && b <= r) && (min_frequency(frequencies[j]) < min_frequency(frequencies[k])
            <==> a < l && a < r || b < l && b < r)
    } by {}
}

/// A word can be split, with a part in some document on both sides, just if there is a best split.
pub proof fn known_parts_give_a_split(frequencies: Seq<(usize, usize)>)
    ensures
        (exists|k: int| #[trigger] is_best(frequencies, k)) <==> exists|k: int|
            0 <= k < frequencies.len() && (#[trigger] frequencies[k]).0 > 0 && frequencies[k].1 > 0,
    decreases frequencies.len(),
{
    if exists|k: int| #[trigger] is_best(frequencies, k) {
        let k = choose|k: int| #[trigger] is_best(frequencies, k);
        assert(frequencies[k].0 > 0 && frequencies[k].1 > 0);
    }
    if frequencies.len() > 0 {
        let n = frequencies.len() - 1;
        let rest = frequencies.take(n);
        known_parts_give_a_split(rest);
        assert(forall|j: int| 0 <= j < n ==> #[trigger] rest[j] == frequencies[j]);
        if exists|k: int| #[trigger] is_best(rest, k) {
            let k = choose|k: int| #[trigger] is_best(rest, k);
            assert forall|j: int| 0 <= j < n implies min_frequency(#[trigger] frequencies[j])
                <= min_frequency(frequencies[k]) && (j < k ==> min_frequency(frequencies[j])
                < min_frequency(frequencies[k])) by {
                assert(rest[j] == frequencies[j]);
            }
            if min_frequency(frequencies[n]) > min_frequency(frequencies[k]) {
                assert(is_best(frequencies, n));
            } else {
                assert(is_best(frequencies, k));
            }
        } else {
            assert forall|j: int| 0 <= j < n implies min_frequency(#[trigger] frequencies[j])
                == 0 by {
                assert(rest[j] == frequencies[j]);
            }
            if min_frequency(frequencies[n]) > 0 {
                assert(is_best(frequencies, n));
            }
        }
    }
}

/// There is one best split.
pub proof fn best_split_is_unique(frequencies: Seq<(usize, usize)>, k: int, j: int)
    requires
        is_best(frequencies, k),
        is_best(frequencies, j),
    ensures
        k == j,
{
}

} // verus!
