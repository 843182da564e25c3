//! Quicksort over a chosen in-place partitioning scheme.
//!
//! The three schemes (Hoare two-pointer, Lomuto single-scan, Dutch national
//! flag three-way) share the same contract shape: they rearrange a segment
//! `[lo, hi)` in place and return boundary indices that split it into regions
//! ordered around the pivot value. `quick_sort_with` recurses on the regions
//! that a scheme leaves unordered.

use vstd::prelude::*;
use crate::order::{lemma_partition_recursion_sorted, lemma_permutes_refl, lemma_permutes_trans,
    lemma_permutes_whole, lemma_swap_permutes, lemma_three_way_recursion_sorted, permutes, sorted,
    sorted_between, swap_entries};

verus! {

/// Selects the partitioning style; exposed for comparative benchmarking.
#[derive(Clone, Copy)]
pub enum Partition {
    Lomuto,
    Hoare,
    Dutch3Way,
}

/// Sorts `data` in ascending order using quicksort with Hoare partitioning.
pub fn quick_sort(data: &mut Vec<i64>)
    ensures
        sorted(final(data)@),
        final(data)@.to_multiset() == old(data)@.to_multiset(),
        final(data)@.len() == old(data)@.len(),
{
    quick_sort_with(data, Partition::Hoare);
}

/// Sorts `data` in ascending order using quicksort with the selected
/// partitioning scheme.
pub fn quick_sort_with(data: &mut Vec<i64>, scheme: Partition)
    ensures
        sorted(final(data)@),
        final(data)@.to_multiset() == old(data)@.to_multiset(),
        final(data)@.len() == old(data)@.len(),
{
    let n = data.len();
    quick_sort_segment(data, 0, n, scheme);
    proof {
        lemma_permutes_whole(old(data)@, data@, 0, n as int);
    }
}

/// Sorts the segment `[lo, hi)` of `data` in place with the selected scheme.
fn quick_sort_segment(data: &mut Vec<i64>, lo: usize, hi: usize, scheme: Partition)
    requires
        lo <= hi <= old(data)@.len(),
    ensures
        permutes(old(data)@, final(data)@, lo as int, hi as int),
        sorted_between(final(data)@, lo as int, hi as int),
    decreases hi - lo,
{
    if hi - lo <= 1 {
        proof {
            lemma_permutes_refl(data@, lo as int, hi as int);
        }
        return;
    }
    let pivot = middle_of_three(data, lo, hi);
    match scheme {
        Partition::Hoare => {
            let p = hoare(data, lo, hi, pivot);
            let ghost s1 = data@;
            quick_sort_segment(data, lo, p, scheme);
            let ghost s2 = data@;
            quick_sort_segment(data, p + 1, hi, scheme);
            proof {
                lemma_partition_recursion_sorted(
                    s1,
                    s2,
                    data@,
                    lo as int,
                    p as int,
                    hi as int,
                );
                lemma_permutes_trans(old(data)@, s1, data@, lo as int, hi as int);
            }
        },
        Partition::Lomuto => {
            let p = lomuto(data, lo, hi, pivot);
            let ghost s1 = data@;
            quick_sort_segment(data, lo, p, scheme);
            let ghost s2 = data@;
            quick_sort_segment(data, p + 1, hi, scheme);
            proof {
                lemma_partition_recursion_sorted(
                    s1,
                    s2,
                    data@,
                    lo as int,
                    p as int,
                    hi as int,
                );
                lemma_permutes_trans(old(data)@, s1, data@, lo as int, hi as int);
            }
        },
        Partition::Dutch3Way => {
            let (lt, gt) = dutch_3_way(data, lo, hi, pivot);
            let ghost s1 = data@;
            quick_sort_segment(data, lo, lt, scheme);
            let ghost s2 = data@;
            quick_sort_segment(data, gt + 1, hi, scheme);
            proof {
                if hi - lo == 2 {
                    assert(s2 =~= s1);
                    assert(data@ =~= s2);
                } else {
                    lemma_three_way_recursion_sorted(
                        s1,
                        s2,
                        data@,
                        lo as int,
                        lt as int,
                        gt as int,
                        hi as int,
                    );
                    lemma_permutes_trans(old(data)@, s1, data@, lo as int, hi as int);
                }
            }
        },
    }
}

/// The index the pivot selector chooses on a segment `[lo, hi)` longer than
/// two, written as its decision table: with `a` the first entry, `b` the
/// middle one and `c` the last, if `a < b` it takes the middle when `b < c`,
/// else the last when `a < c`, else the first; otherwise it takes the first
/// when `a < c`, else the last when `b < c`, else the middle.
pub open spec fn median_of_three_index(s: Seq<i64>, lo: int, hi: int) -> int {
    let mid = lo + (hi - 1 - lo) / 2;
    let last = hi - 1;
    let a = s[lo];
    let b = s[mid];
    let c = s[last];
    if a < b {
        if b < c {
            mid
        } else if a < c {
            last
        } else {
            lo
        }
    } else {
        if a < c {
            lo
        } else if b < c {
            last
        } else {
            mid
        }
    }
}

/// The index `r` points at the median of the first, middle and last entries
/// of the segment `[lo, hi)`.
pub open spec fn picks_median(s: Seq<i64>, lo: int, hi: int, r: int) -> bool {
    let a = s[lo];
    let b = s[lo + (hi - 1 - lo) / 2];
    let c = s[hi - 1];
    ||| (r == lo + (hi - 1 - lo) / 2 && (a <= b <= c || c <= b <= a))
    ||| (r == hi - 1 && (a <= c <= b || b <= c <= a))
    ||| (r == lo && (b <= a <= c || c <= a <= b))
}

/// Picks the median of the first, middle and last entries of `[lo, hi)` to be
/// the pivot; segments of length at most 2 always yield the first index.
pub fn middle_of_three(data: &Vec<i64>, lo: usize, hi: usize) -> (r: usize)
    requires
        lo < hi <= data@.len(),
    ensures
        lo <= r < hi,
        hi - lo <= 2 ==> r == lo,
        hi - lo > 2 ==> r as int == median_of_three_index(data@, lo as int, hi as int),
        hi - lo > 2 ==> picks_median(data@, lo as int, hi as int, r as int),
{
    if hi - lo <= 2 {
        return lo;
    }
    let last = hi - 1;
    let mid = lo + (last - lo) / 2;

    let a = data[lo];
    let b = data[mid];
    let c = data[last];
    if a < b {
        if b < c {
            mid
        } else if a < c {
            last
        } else {
            lo
        }
    } else {
        if a < c {
            lo
        } else if b < c {
            last
        } else {
            mid
        }
    }
}

/// Lomuto partition: the pivot is parked at the end, a single left-to-right
/// scan moves the entries at most the pivot behind a write index, and the
/// pivot lands at the returned boundary.
pub fn lomuto(data: &mut Vec<i64>, lo: usize, hi: usize, pivot: usize) -> (p: usize)
    requires
        lo <= pivot < hi <= old(data)@.len(),
        hi - lo >= 2,
    ensures
        lo <= p < hi,
        permutes(old(data)@, final(data)@, lo as int, hi as int),
        final(data)@[p as int] == old(data)@[pivot as int],
        forall|k: int| (lo as int) <= k < (p as int) ==> final(data)@[k] <= final(data)@[p as int],
        forall|k: int| (p as int) < k < (hi as int) ==> final(data)@[k] >= final(data)@[p as int],
{
    let last = hi - 1;
    let ghost s0 = data@;
    swap_entries(data, pivot, last);
    proof {
        lemma_swap_permutes(s0, lo as int, hi as int, pivot as int, last as int);
    }

    let mut i: usize = lo;
    let mut j: usize = lo;
    while j < last
        invariant
            lo <= i <= j <= last,
            last == hi - 1,
            hi <= data@.len(),
            data@.len() == old(data)@.len(),
            permutes(old(data)@, data@, lo as int, hi as int),
            data@[last as int] == old(data)@[pivot as int],
            forall|k: int| (lo as int) <= k < (i as int) ==> data@[k] <= data@[last as int],
            forall|k: int| (i as int) <= k < (j as int) ==> data@[k] > data@[last as int],
        decreases last - j,
    {
        if data[j] <= data[last] {
            let ghost s1 = data@;
            swap_entries(data, i, j);
            proof {
                lemma_swap_permutes(s1, lo as int, hi as int, i as int, j as int);
                lemma_permutes_trans(old(data)@, s1, data@, lo as int, hi as int);
            }
            i = i + 1;
        }
        j = j + 1;
    }

    let ghost s2 = data@;
    swap_entries(data, i, last);
    proof {
        lemma_swap_permutes(s2, lo as int, hi as int, i as int, last as int);
        lemma_permutes_trans(old(data)@, s2, data@, lo as int, hi as int);
    }
    i
}

/// Hoare partition: the pivot is parked at the front; two pointers advance
/// towards each other, exchanging an entry at least the pivot on the left
/// with one at most the pivot on the right, and the pivot lands at the
/// returned boundary.
pub fn hoare(data: &mut Vec<i64>, lo: usize, hi: usize, pivot: usize) -> (p: usize)
    requires
        lo <= pivot < hi <= old(data)@.len(),
        hi - lo >= 2,
    ensures
        lo <= p < hi,
        permutes(old(data)@, final(data)@, lo as int, hi as int),
        final(data)@[p as int] == old(data)@[pivot as int],
        forall|k: int| (lo as int) <= k < (p as int) ==> final(data)@[k] <= final(data)@[p as int],
        forall|k: int| (p as int) < k < (hi as int) ==> final(data)@[k] >= final(data)@[p as int],
{
    let ghost s0 = data@;
    swap_entries(data, lo, pivot);
    proof {
        lemma_swap_permutes(s0, lo as int, hi as int, lo as int, pivot as int);
    }

    let mut i: usize = lo;
    let mut j: usize = hi;
    loop
        invariant
            lo <= i < j <= hi,
            hi <= data@.len(),
            data@.len() == old(data)@.len(),
            permutes(old(data)@, data@, lo as int, hi as int),
            data@[lo as int] == old(data)@[pivot as int],
            forall|k: int| (lo as int) < k <= (i as int) ==> data@[k] <= data@[lo as int],
            forall|k: int| (j as int) <= k < (hi as int) ==> data@[k] >= data@[lo as int],
        decreases j - i,
    {
        i = i + 1;
        let ghost i_mark = i;
        while i < hi && data[i] < data[lo]
            invariant
                i_mark <= i,
                lo < i <= hi,
                hi <= data@.len(),
                forall|k: int| (lo as int) < k < (i as int) ==> data@[k] <= data@[lo as int],
            decreases hi - i,
        {
            i = i + 1;
        }

        j = j - 1;
        let ghost j_mark = j;
        while j > lo && data[j] > data[lo]
            invariant
                j <= j_mark,
                lo <= j < hi,
                hi <= data@.len(),
                forall|k: int| (j as int) < k < (hi as int) ==> data@[k] >= data@[lo as int],
            decreases j,
        {
            j = j - 1;
        }

        if i >= j {
            let ghost s1 = data@;
            swap_entries(data, lo, j);
            proof {
                lemma_swap_permutes(s1, lo as int, hi as int, lo as int, j as int);
                lemma_permutes_trans(old(data)@, s1, data@, lo as int, hi as int);
            }
            return j;
        }
        let ghost s1 = data@;
        swap_entries(data, i, j);
        proof {
            lemma_swap_permutes(s1, lo as int, hi as int, i as int, j as int);
            lemma_permutes_trans(old(data)@, s1, data@, lo as int, hi as int);
        }
    }
}

/// Dutch national flag three-way partition: returns `(lt, gt)` such that the
/// entries of `[lo, lt)` are below the pivot value, those of `[lt, gt]` equal
/// it, and those of `(gt, hi)` are above it. Segments of length 2 are
/// special-cased: they are put in order and `(lo, hi - 1)` is returned.
pub fn dutch_3_way(data: &mut Vec<i64>, lo: usize, hi: usize, pivot: usize) -> (r: (usize, usize))
    requires
        lo <= pivot < hi <= old(data)@.len(),
        hi - lo >= 2,
    ensures
        lo <= r.0 <= r.1 < hi,
        permutes(old(data)@, final(data)@, lo as int, hi as int),
        hi - lo == 2 ==> r.0 == lo && r.1 == lo + 1 && sorted_between(
            final(data)@,
            lo as int,
            hi as int,
        ),
        hi - lo > 2 ==> final(data)@[r.1 as int] == old(data)@[pivot as int],
        hi - lo > 2 ==> forall|k: int|
            (lo as int) <= k < (r.0 as int) ==> #[trigger] final(data)@[k] < final(data)@[r.1 as int],
        hi - lo > 2 ==> forall|k: int|
            (r.0 as int) <= k <= (r.1 as int) ==> #[trigger] final(data)@[k] == final(data)@[r.1 as int],
        hi - lo > 2 ==> forall|k: int|
            (r.1 as int) < k < (hi as int) ==> #[trigger] final(data)@[k] > final(data)@[r.1 as int],
{
    if hi - lo <= 2 {
        if data[lo] > data[hi - 1] {
            let ghost s0 = data@;
            swap_entries(data, lo, hi - 1);
            proof {
                lemma_swap_permutes(s0, lo as int, hi as int, lo as int, hi as int - 1);
            }
        } else {
            proof {
                lemma_permutes_refl(data@, lo as int, hi as int);
            }
        }
        return (lo, hi - 1);
    }

    let ghost s0 = data@;
    swap_entries(data, pivot, hi - 1);
    proof {
        lemma_swap_permutes(s0, lo as int, hi as int, pivot as int, hi as int - 1);
    }
    let p = hi - 1;

    let mut lt: usize = lo;
    let mut i: usize = lo;
    let mut gt: usize = hi - 1;

    while i < gt
        invariant
            lo <= lt <= i <= gt <= p,
            p == hi - 1,
            hi <= data@.len(),
            data@.len() == old(data)@.len(),
            permutes(old(data)@, data@, lo as int, hi as int),
            data@[p as int] == old(data)@[pivot as int],
            forall|k: int| (lo as int) <= k < (lt as int) ==> data@[k] < data@[p as int],
            forall|k: int| (lt as int) <= k < (i as int) ==> data@[k] == data@[p as int],
            forall|k: int| (gt as int) <= k < (p as int) ==> data@[k] > data@[p as int],
        decreases gt - i,
    {
        if data[i] < data[p] {
            let ghost s1 = data@;
            swap_entries(data, lt, i);
            proof {
                lemma_swap_permutes(s1, lo as int, hi as int, lt as int, i as int);
                lemma_permutes_trans(old(data)@, s1, data@, lo as int, hi as int);
            }
            lt = lt + 1;
            i = i + 1;
        } else if data[i] == data[p] {
            i = i + 1;
        } else {
            gt = gt - 1;
            let ghost s1 = data@;
            swap_entries(data, i, gt);
            proof {
                lemma_swap_permutes(s1, lo as int, hi as int, i as int, gt as int);
                lemma_permutes_trans(old(data)@, s1, data@, lo as int, hi as int);
            }
        }
    }

    let ghost s2 = data@;
    swap_entries(data, gt, p);
    proof {
        lemma_swap_permutes(s2, lo as int, hi as int, gt as int, p as int);
        lemma_permutes_trans(old(data)@, s2, data@, lo as int, hi as int);
    }
    (lt, gt)
}

} // verus!
