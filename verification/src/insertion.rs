//! Insertion sort: in-place, stable, O(n^2) comparisons worst case, O(1)
//! extra space, and O(n) when the input is already nearly sorted. The
//! introsort engine runs it once, globally, as its finishing pass.

use vstd::prelude::*;
use crate::order::{lemma_permutes_trans, lemma_permutes_whole, lemma_swap_permutes, permutes,
    sorted, sorted_between, swap_entries};

verus! {

/// Sorts `data` in ascending order using insertion sort.
pub fn insertion_sort(data: &mut Vec<i64>)
    ensures
        sorted(final(data)@),
        final(data)@.to_multiset() == old(data)@.to_multiset(),
        final(data)@.len() == old(data)@.len(),
{
    let n = data.len();
    let mut i: usize = 1;
    while i < n
        invariant
            1 <= i,
            n == data@.len(),
            sorted_between(data@, 0, i as int),
            permutes(old(data)@, data@, 0, n as int),
        decreases n - i,
    {
        let mut j: usize = i;
        while j > 0 && data[j] < data[j - 1]
            invariant
                0 <= j <= i < n,
                n == data@.len(),
                sorted_between(data@, 0, j as int),
                sorted_between(data@, j as int, i as int + 1),
                j > 0 && j < i ==> data@[j as int - 1] <= data@[j as int + 1],
                permutes(old(data)@, data@, 0, n as int),
            decreases j,
        {
            let ghost before = data@;
            swap_entries(data, j, j - 1);
            proof {
                lemma_swap_permutes(before, 0, n as int, j as int, j as int - 1);
                lemma_permutes_trans(old(data)@, before, data@, 0, n as int);
            }
            j = j - 1;
        }
        i = i + 1;
    }
    proof {
        lemma_permutes_whole(old(data)@, data@, 0, n as int);
    }
}

} // verus!
