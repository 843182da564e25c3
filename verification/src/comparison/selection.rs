//! Selection sort: in-place, not stable, O(n^2) comparisons, O(1) extra
//! space.

use vstd::prelude::*;
use crate::order::{lemma_permutes_trans, lemma_permutes_whole, lemma_swap_permutes, permutes,
    sorted, sorted_between, swap_entries};

verus! {

/// Returns the index of a smallest entry of the segment `[lo, hi)`.
pub fn get_min(data: &Vec<i64>, lo: usize, hi: usize) -> (m: usize)
    requires
        lo < hi <= data@.len(),
    ensures
        lo <= m < hi,
        forall|k: int| (lo as int) <= k < (hi as int) ==> data@[m as int] <= data@[k],
        forall|k: int| (lo as int) <= k < (m as int) ==> data@[k] > data@[m as int],
{
    let mut min: usize = lo;
    let mut i: usize = lo + 1;
    while i < hi
        invariant
            lo <= min < i <= hi,
            hi <= data@.len(),
            forall|k: int| (lo as int) <= k < (i as int) ==> data@[min as int] <= data@[k],
            forall|k: int| (lo as int) <= k < (min as int) ==> data@[k] > data@[min as int],
        decreases hi - i,
    {
        if data[min] > data[i] {
            min = i;
        }
        i = i + 1;
    }
    min
}

/// Sorts `data` in ascending order using selection sort.
pub fn selection_sort(data: &mut Vec<i64>)
    ensures
        sorted(final(data)@),
        final(data)@.to_multiset() == old(data)@.to_multiset(),
        final(data)@.len() == old(data)@.len(),
{
    let n = data.len();
    let mut i: usize = 0;
    while i < n
        invariant
            i <= n,
            n == data@.len(),
            permutes(old(data)@, data@, 0, n as int),
            sorted_between(data@, 0, i as int),
            forall|a: int, b: int|
                0 <= a < (i as int) <= b < (n as int) ==> data@[a] <= data@[b],
        decreases n - i,
    {
        let min = get_min(data, i, n);
        if min != i {
            let ghost s1 = data@;
            swap_entries(data, i, min);
            proof {
                lemma_swap_permutes(s1, 0, n as int, i as int, min as int);
                lemma_permutes_trans(old(data)@, s1, data@, 0, n as int);
            }
        }
        i = i + 1;
    }
    proof {
        lemma_permutes_whole(old(data)@, data@, 0, n as int);
    }
}

} // verus!
