//! Plain quicksort: always Lomuto partitioning around a median-of-three
//! pivot, with no depth bound and no fallback.

use vstd::prelude::*;
use crate::comparison::quick::{lomuto, middle_of_three};
use crate::order::{lemma_partition_recursion_sorted, lemma_permutes_refl, lemma_permutes_trans,
    lemma_permutes_whole, permutes, sorted, sorted_between};

verus! {

/// Sorts `data` in ascending order using quicksort with Lomuto partitioning.
pub fn quick_sort(data: &mut Vec<i64>)
    ensures
        sorted(final(data)@),
        final(data)@.to_multiset() == old(data)@.to_multiset(),
        final(data)@.len() == old(data)@.len(),
{
    let n = data.len();
    sort_segment(data, 0, n);
    proof {
        lemma_permutes_whole(old(data)@, data@, 0, n as int);
    }
}

/// Sorts the segment `[lo, hi)` of `data` in place.
fn sort_segment(data: &mut Vec<i64>, lo: usize, hi: usize)
    requires
        lo <= hi <= old(data)@.len(),
    ensures
        permutes(old(data)@, final(data)@, lo as int, hi as int),
        sorted_between(final(data)@, lo as int, hi as int),
    decreases hi - lo,
{
    if hi - lo <= 1 {
        proof {
            lemma_permutes_refl(data@, lo as int, hi as int);
        }
        return;
    }
    let pivot = middle_of_three(data, lo, hi);
    let p = lomuto(data, lo, hi, pivot);

    let ghost s1 = data@;
    sort_segment(data, lo, p);
    let ghost s2 = data@;
    sort_segment(data, p + 1, hi);
    proof {
        lemma_partition_recursion_sorted(s1, s2, data@, lo as int, p as int, hi as int);
        lemma_permutes_trans(old(data)@, s1, data@, lo as int, hi as int);
    }
}

} // verus!
