//! Merge sort: O(n log n) comparisons, O(n) extra space for the merge
//! buffers, not in place.

use vstd::prelude::*;
use vstd::multiset::Multiset;
use vstd::seq_lib::group_to_multiset_ensures;
use vstd::seq_lib::lemma_multiset_commutative;
use crate::order::{lemma_permutes_refl, lemma_permutes_trans, lemma_permutes_whole,
    lemma_permutes_widen, permutes, sorted, sorted_between};

verus! {

/// Sorts `data` in ascending order using merge sort.
pub fn merge_sort(data: &mut Vec<i64>)
    ensures
        sorted(final(data)@),
        final(data)@.to_multiset() == old(data)@.to_multiset(),
        final(data)@.len() == old(data)@.len(),
{
    let n = data.len();
    merge_sort_segment(data, 0, n);
    proof {
        lemma_permutes_whole(old(data)@, data@, 0, n as int);
    }
}

/// Sorts the segment `[lo, hi)` of `data`: each half is sorted recursively
/// and the two sorted halves are merged.
fn merge_sort_segment(data: &mut Vec<i64>, lo: usize, hi: usize)
    requires
        lo <= hi <= old(data)@.len(),
    ensures
        permutes(old(data)@, final(data)@, lo as int, hi as int),
        sorted_between(final(data)@, lo as int, hi as int),
    decreases hi - lo,
{
    if hi - lo <= 1 {
        proof {
            lemma_permutes_refl(data@, lo as int, hi as int);
        }
        return;
    }

    let mid = lo + (hi - lo) / 2;
    merge_sort_segment(data, lo, mid);
    let ghost s1 = data@;
    merge_sort_segment(data, mid, hi);
    let ghost s2 = data@;
    merge(data, lo, mid, hi);
    proof {
        lemma_permutes_widen(old(data)@, s1, lo as int, hi as int, lo as int, mid as int);
        lemma_permutes_widen(s1, s2, lo as int, hi as int, mid as int, hi as int);
        lemma_permutes_trans(old(data)@, s1, s2, lo as int, hi as int);
        lemma_permutes_trans(old(data)@, s2, data@, lo as int, hi as int);
    }
}

/// Appending one value to the merged prefix inserts it into the prefix's
/// multiset, on whichever side of the split it came from.
proof fn lemma_extend_merge_prefix(pre: Seq<i64>, x: i64, m1: Multiset<i64>, m2: Multiset<i64>)
    requires
        pre.to_multiset() == m1.add(m2),
    ensures
        pre.push(x).to_multiset() == m1.insert(x).add(m2),
        pre.push(x).to_multiset() == m1.add(m2.insert(x)),
{
    broadcast use vstd::multiset::group_multiset_axioms;

    vstd::seq_lib::to_multiset_build(pre, x);
    assert(m1.insert(x).add(m2) =~= m1.add(m2).insert(x));
    assert(m1.add(m2.insert(x)) =~= m1.add(m2).insert(x));
}

/// Merges the sorted halves `[lo, mid)` and `[mid, hi)` in place, using two
/// temporary buffers of the halves.
fn merge(data: &mut Vec<i64>, lo: usize, mid: usize, hi: usize)
    requires
        lo <= mid <= hi <= old(data)@.len(),
        sorted_between(old(data)@, lo as int, mid as int),
        sorted_between(old(data)@, mid as int, hi as int),
    ensures
        permutes(old(data)@, final(data)@, lo as int, hi as int),
        sorted_between(final(data)@, lo as int, hi as int),
{
    broadcast use group_to_multiset_ensures;

    // Copy both halves out.
    let mut left: Vec<i64> = Vec::new();
    let mut i: usize = lo;
    while i < mid
        invariant
            lo <= i <= mid <= data@.len(),
            left@ == data@.subrange(lo as int, i as int),
        decreases mid - i,
    {
        left.push(data[i]);
        proof {
            assert(left@ =~= data@.subrange(lo as int, i as int + 1));
        }
        i = i + 1;
    }
    let mut right: Vec<i64> = Vec::new();
    let mut j: usize = mid;
    while j < hi
        invariant
            mid <= j <= hi <= data@.len(),
            right@ == data@.subrange(mid as int, j as int),
        decreases hi - j,
    {
        right.push(data[j]);
        proof {
            assert(right@ =~= data@.subrange(mid as int, j as int + 1));
        }
        j = j + 1;
    }

    let llen = left.len();
    let rlen = right.len();
    proof {
        assert(forall|x: int, y: int| 0 <= x <= y < llen ==> left@[x] <= left@[y]);
        assert(forall|x: int, y: int| 0 <= x <= y < rlen ==> right@[x] <= right@[y]);
    }

    let mut a: usize = 0;
    let mut b: usize = 0;
    let mut k: usize = lo;

    while a < llen && b < rlen
        invariant
            a <= llen,
            b <= rlen,
            k as int == lo as int + a as int + b as int,
            llen == left@.len(),
            rlen == right@.len(),
            llen as int + rlen as int == hi as int - lo as int,
            hi <= data@.len(),
            data@.len() == old(data)@.len(),
            forall|x: int, y: int| 0 <= x <= y < llen ==> left@[x] <= left@[y],
            forall|x: int, y: int| 0 <= x <= y < rlen ==> right@[x] <= right@[y],
            data@.subrange(lo as int, k as int).to_multiset() == left@.take(
                a as int,
            ).to_multiset().add(right@.take(b as int).to_multiset()),
            forall|q: int| 0 <= q < data@.len() && !((lo as int) <= q < (k as int)) ==> data@[q]
                == old(data)@[q],
            sorted_between(data@, lo as int, k as int),
            k > lo && a < llen ==> data@[k as int - 1] <= left@[a as int],
            k > lo && b < rlen ==> data@[k as int - 1] <= right@[b as int],
        decreases llen - a + rlen - b,
    {
        let ghost pre = data@;
        if left[a] <= right[b] {
            data[k] = left[a];
            proof {
                assert(data@.subrange(lo as int, k as int) =~= pre.subrange(lo as int, k as int));
                assert(data@.subrange(lo as int, k as int + 1) =~= pre.subrange(
                    lo as int,
                    k as int,
                ).push(left@[a as int]));
                assert(left@.take(a as int + 1) =~= left@.take(a as int).push(left@[a as int]));
                vstd::seq_lib::to_multiset_build(left@.take(a as int), left@[a as int]);
                lemma_extend_merge_prefix(
                    pre.subrange(lo as int, k as int),
                    left@[a as int],
                    left@.take(a as int).to_multiset(),
                    right@.take(b as int).to_multiset(),
                );
            }
            a = a + 1;
        } else {
            data[k] = right[b];
            proof {
                assert(data@.subrange(lo as int, k as int) =~= pre.subrange(lo as int, k as int));
                assert(data@.subrange(lo as int, k as int + 1) =~= pre.subrange(
                    lo as int,
                    k as int,
                ).push(right@[b as int]));
                assert(right@.take(b as int + 1) =~= right@.take(b as int).push(right@[b as int]));
                vstd::seq_lib::to_multiset_build(right@.take(b as int), right@[b as int]);
                lemma_extend_merge_prefix(
                    pre.subrange(lo as int, k as int),
                    right@[b as int],
                    left@.take(a as int).to_multiset(),
                    right@.take(b as int).to_multiset(),
                );
            }
            b = b + 1;
        }
        k = k + 1;
    }

    while a < llen
        invariant
            a <= llen,
            b <= rlen,
            a < llen ==> b == rlen,
            k as int == lo as int + a as int + b as int,
            llen == left@.len(),
            rlen == right@.len(),
            llen as int + rlen as int == hi as int - lo as int,
            hi <= data@.len(),
            data@.len() == old(data)@.len(),
            forall|x: int, y: int| 0 <= x <= y < llen ==> left@[x] <= left@[y],
            data@.subrange(lo as int, k as int).to_multiset() == left@.take(
                a as int,
            ).to_multiset().add(right@.take(b as int).to_multiset()),
            forall|q: int| 0 <= q < data@.len() && !((lo as int) <= q < (k as int)) ==> data@[q]
                == old(data)@[q],
            sorted_between(data@, lo as int, k as int),
            k > lo && a < llen ==> data@[k as int - 1] <= left@[a as int],
            k > lo && b < rlen ==> data@[k as int - 1] <= right@[b as int],
        decreases llen - a,
    {
        let ghost pre = data@;
        data[k] = left[a];
        proof {
            assert(data@.subrange(lo as int, k as int) =~= pre.subrange(lo as int, k as int));
            assert(data@.subrange(lo as int, k as int + 1) =~= pre.subrange(
                lo as int,
                k as int,
            ).push(left@[a as int]));
            assert(left@.take(a as int + 1) =~= left@.take(a as int).push(left@[a as int]));
            vstd::seq_lib::to_multiset_build(left@.take(a as int), left@[a as int]);
            lemma_extend_merge_prefix(
                pre.subrange(lo as int, k as int),
                left@[a as int],
                left@.take(a as int).to_multiset(),
                right@.take(b as int).to_multiset(),
            );
        }
        a = a + 1;
        k = k + 1;
    }

    while b < rlen
        invariant
            a == llen,
            b <= rlen,
            k as int == lo as int + a as int + b as int,
            llen == left@.len(),
            rlen == right@.len(),
            llen as int + rlen as int == hi as int - lo as int,
            hi <= data@.len(),
            data@.len() == old(data)@.len(),
            forall|x: int, y: int| 0 <= x <= y < rlen ==> right@[x] <= right@[y],
            data@.subrange(lo as int, k as int).to_multiset() == left@.take(
                a as int,
            ).to_multiset().add(right@.take(b as int).to_multiset()),
            forall|q: int| 0 <= q < data@.len() && !((lo as int) <= q < (k as int)) ==> data@[q]
                == old(data)@[q],
            sorted_between(data@, lo as int, k as int),
            k > lo && b < rlen ==> data@[k as int - 1] <= right@[b as int],
        decreases rlen - b,
    {
        let ghost pre = data@;
        data[k] = right[b];
        proof {
            assert(data@.subrange(lo as int, k as int) =~= pre.subrange(lo as int, k as int));
            assert(data@.subrange(lo as int, k as int + 1) =~= pre.subrange(
                lo as int,
                k as int,
            ).push(right@[b as int]));
            assert(right@.take(b as int + 1) =~= right@.take(b as int).push(right@[b as int]));
            vstd::seq_lib::to_multiset_build(right@.take(b as int), right@[b as int]);
            lemma_extend_merge_prefix(
                pre.subrange(lo as int, k as int),
                right@[b as int],
                left@.take(a as int).to_multiset(),
                right@.take(b as int).to_multiset(),
            );
        }
        b = b + 1;
        k = k + 1;
    }

    proof {
        assert(k as int == hi as int);
        assert(left@.take(llen as int) =~= left@);
        assert(right@.take(rlen as int) =~= right@);
        assert(old(data)@.subrange(lo as int, hi as int) =~= left@ + right@);
        lemma_multiset_commutative(left@, right@);
        assert(data@.subrange(lo as int, hi as int).to_multiset() == old(data)@.subrange(
            lo as int,
            hi as int,
        ).to_multiset());
    }
}

} // verus!
