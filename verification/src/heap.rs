//! Heapsort: in-place, unstable, O(n log n) comparisons in the worst case.
//! The introsort engine delegates a segment here when its recursion-depth
//! budget runs out, which is what gives introsort its worst-case bound.

use vstd::prelude::*;
use crate::order::{lemma_permutes_carries_pred, lemma_permutes_refl, lemma_permutes_trans,
    lemma_permutes_whole, lemma_permutes_widen, lemma_swap_permutes, permutes, sorted,
    sorted_between, swap_entries};

verus! {

/// Heap slot holding the parent of slot `c`.
pub open spec fn heap_parent(c: int) -> int {
    (c - 1) / 2
}

/// Slot `c` lies in the subtree rooted at slot `r` of the implicit binary
/// tree laid out over heap slots.
pub open spec fn in_subtree(r: int, c: int) -> bool
    decreases c,
{
    if c == r {
        true
    } else if c <= r || c <= 0 {
        false
    } else {
        in_subtree(r, heap_parent(c))
    }
}

/// Members of the subtree rooted at `r` lie at or below slot `r`.
proof fn lemma_subtree_bounds(r: int, c: int)
    requires
        in_subtree(r, c),
    ensures
        c >= r,
{
}

/// Subtree containment is transitive.
proof fn lemma_subtree_trans(a: int, b: int, c: int)
    requires
        0 <= a,
        in_subtree(a, b),
        in_subtree(b, c),
    ensures
        in_subtree(a, c),
    decreases c,
{
    lemma_subtree_bounds(a, b);
    if c != b {
        lemma_subtree_bounds(b, c);
        lemma_subtree_trans(a, b, heap_parent(c));
    }
}

/// Every parent–child pair among the first `n` heap slots of the segment
/// starting at `lo` whose parent slot is at or below slot `r` is ordered:
/// the parent holds at least the child. `r == 0` is the max-heap property.
pub open spec fn heap_ordered_from(s: Seq<i64>, lo: int, n: int, r: int) -> bool {
    forall|c: int|
        0 < c < n && #[trigger] heap_parent(c) >= r ==> s[lo + heap_parent(c)] >= s[lo + c]
}

/// In a max-heap the root holds the largest value.
proof fn lemma_heap_root_max(s: Seq<i64>, lo: int, n: int, c: int)
    requires
        0 <= lo,
        lo + n <= s.len(),
        heap_ordered_from(s, lo, n, 0),
        0 <= c < n,
    ensures
        s[lo] >= s[lo + c],
    decreases c,
{
    if c > 0 {
        assert(s[lo + heap_parent(c)] >= s[lo + c]);
        lemma_heap_root_max(s, lo, n, heap_parent(c));
    }
}

/// Sifts the entry at heap slot `i` down the tree, swapping it with its
/// larger child until both children are no larger, restoring heap order at
/// every pair whose parent is at or below slot `i`.
#[verifier::rlimit(50)]
fn heapify(data: &mut Vec<i64>, lo: usize, length: usize, i: usize)
    requires
        lo + length <= old(data)@.len(),
        lo + length <= usize::MAX,
        i < length,
        heap_ordered_from(old(data)@, lo as int, length as int, i as int + 1),
    ensures
        permutes(
            old(data)@,
            final(data)@,
            lo as int + i as int,
            lo as int + length as int,
        ),
        forall|k: int|
            0 <= k < length && !in_subtree(i as int, k) ==> final(data)@[lo as int + k] == old(
                data,
            )@[lo as int + k],
        heap_ordered_from(final(data)@, lo as int, length as int, i as int),
        final(data)@[lo as int + i as int] == old(data)@[lo as int + i as int] || (2 * i + 1
            < length && final(data)@[lo as int + i as int] == old(data)@[lo as int + 2 * (
        i as int) + 1]) || (2 * i + 2 < length && final(data)@[lo as int + i as int] == old(
            data,
        )@[lo as int + 2 * (i as int) + 2]),
    decreases length - i,
{
    let mut largest: usize = i;
    if i < length / 2 {
        let l = 2 * i + 1;
        if data[lo + l] > data[lo + largest] {
            largest = l;
        }
    }
    if length >= 2 && i < (length - 1) / 2 {
        let r = 2 * i + 2;
        if data[lo + r] > data[lo + largest] {
            largest = r;
        }
    }
    proof {
        assert(heap_parent(2 * (i as int) + 1) == i as int);
        assert(heap_parent(2 * (i as int) + 2) == i as int);
    }

    if largest != i {
        let ghost s0 = data@;
        swap_entries(data, lo + i, lo + largest);
        let ghost s1 = data@;
        proof {
            lemma_swap_permutes(
                s0,
                lo as int + i as int,
                lo as int + length as int,
                lo as int + i as int,
                lo as int + largest as int,
            );
            reveal_with_fuel(in_subtree, 3);
            assert(in_subtree(i as int, largest as int));
            // Pairs whose parent lies strictly below `largest` are untouched
            // by the swap and were ordered before it.
            assert forall|c: int|
                0 < c < length && #[trigger] heap_parent(c) >= largest as int
                    + 1 implies s1[lo as int + heap_parent(c)] >= s1[lo as int + c] by {
                assert(heap_parent(c) > i as int);
                assert(c >= 2 * heap_parent(c) + 1);
                assert(c > largest as int);
                assert(s1[lo as int + heap_parent(c)] == s0[lo as int + heap_parent(c)]);
                assert(s1[lo as int + c] == s0[lo as int + c]);
            }
        }
        heapify(data, lo, length, largest);
        proof {
            reveal_with_fuel(in_subtree, 3);
            lemma_permutes_widen(
                s1,
                data@,
                lo as int + i as int,
                lo as int + length as int,
                lo as int + largest as int,
                lo as int + length as int,
            );
            lemma_permutes_trans(
                old(data)@,
                s1,
                data@,
                lo as int + i as int,
                lo as int + length as int,
            );
            // Positions outside the subtree of `i` were touched neither by
            // the swap nor by the recursive sift below `largest`.
            assert forall|k: int|
                0 <= k < length && !in_subtree(i as int, k) implies data@[lo as int + k] == old(
                data,
            )@[lo as int + k] by {
                if in_subtree(largest as int, k) {
                    lemma_subtree_trans(i as int, largest as int, k);
                }
                assert(k != i as int && k != largest as int);
            }
            // Heap order at every pair whose parent is at or below `i`.
            assert forall|c: int|
                0 < c < length && #[trigger] heap_parent(c) >= i as int implies data@[lo as int
                + heap_parent(c)] >= data@[lo as int + c] by {
                let q = heap_parent(c);
                assert(c == 2 * q + 1 || c == 2 * q + 2);
                if q >= largest as int {
                } else if q == i as int {
                    assert(data@[lo as int + i as int] == s1[lo as int + i as int]) by {
                        assert(!in_subtree(largest as int, i as int)) by {
                            if in_subtree(largest as int, i as int) {
                                lemma_subtree_bounds(largest as int, i as int);
                            }
                        }
                    }
                    if c == largest as int {
                        // The sifted value at `largest` is one of the values
                        // that sat at `largest` or its children after the
                        // swap, all of which are at most the new parent.
                        if 2 * largest as int + 1 < length {
                            assert(heap_parent(2 * (largest as int) + 1) == largest as int);
                            assert(s1[lo as int + 2 * (largest as int) + 1] == s0[lo as int + 2 * (
                            largest as int) + 1]);
                        }
                        if 2 * largest as int + 2 < length {
                            assert(heap_parent(2 * (largest as int) + 2) == largest as int);
                            assert(s1[lo as int + 2 * (largest as int) + 2] == s0[lo as int + 2 * (
                            largest as int) + 2]);
                        }
                    } else {
                        // The sibling of `largest` is outside its subtree:
                        // walking up from it reaches `i`, which lies above
                        // `largest`.
                        assert(!in_subtree(largest as int, c)) by {
                            if in_subtree(largest as int, c) {
                                assert(c != largest as int);
                                assert(in_subtree(largest as int, heap_parent(c)));
                                lemma_subtree_bounds(largest as int, heap_parent(c));
                            }
                        }
                        assert(data@[lo as int + c] == s1[lo as int + c]);
                        assert(s1[lo as int + c] == s0[lo as int + c]);
                    }
                } else {
                    // i < q < largest: the pair lies outside the subtree of
                    // `largest` and away from the swapped slots.
                    assert(!in_subtree(largest as int, q)) by {
                        if in_subtree(largest as int, q) {
                            lemma_subtree_bounds(largest as int, q);
                        }
                    }
                    assert(!in_subtree(largest as int, c)) by {
                        if in_subtree(largest as int, c) {
                            assert(c != largest as int);
                            assert(in_subtree(largest as int, heap_parent(c)));
                            lemma_subtree_bounds(largest as int, heap_parent(c));
                        }
                    }
                    assert(data@[lo as int + q] == s1[lo as int + q]);
                    assert(data@[lo as int + c] == s1[lo as int + c]);
                    assert(s1[lo as int + q] == s0[lo as int + q]);
                    assert(s1[lo as int + c] == s0[lo as int + c]);
                }
            }
        }
    } else {
        proof {
            lemma_permutes_refl(data@, lo as int + i as int, lo as int + length as int);
            assert forall|c: int|
                0 < c < length && #[trigger] heap_parent(c) >= i as int implies data@[lo as int
                + heap_parent(c)] >= data@[lo as int + c] by {
                let q = heap_parent(c);
                if q == i as int {
                    assert(c == 2 * q + 1 || c == 2 * q + 2);
                }
            }
        }
    }
}

/// Sorts the segment `[lo, hi)` of `data` in place using heapsort: the
/// segment is first arranged into a max-heap, then the root is repeatedly
/// swapped behind the shrinking heap and sifted down.
pub fn heap_sort_segment(data: &mut Vec<i64>, lo: usize, hi: usize)
    requires
        lo <= hi <= old(data)@.len(),
    ensures
        permutes(old(data)@, final(data)@, lo as int, hi as int),
        sorted_between(final(data)@, lo as int, hi as int),
{
    let n = hi - lo;

    // Arrange the whole segment into a max-heap, bottom-up.
    let mut m = n / 2;
    while m > 0
        invariant
            m <= n / 2,
            n == hi - lo,
            hi <= data@.len(),
            data@.len() == old(data)@.len(),
            permutes(old(data)@, data@, lo as int, hi as int),
            heap_ordered_from(data@, lo as int, n as int, m as int),
        decreases m,
    {
        m = m - 1;
        let ghost s1 = data@;
        heapify(data, lo, n, m);
        proof {
            lemma_permutes_widen(
                s1,
                data@,
                lo as int,
                hi as int,
                lo as int + m as int,
                lo as int + n as int,
            );
            lemma_permutes_trans(old(data)@, s1, data@, lo as int, hi as int);
        }
    }

    // Repeatedly move the heap's maximum behind the heap and restore order.
    let mut k = n;
    while k > 1
        invariant
            k <= n,
            n == hi - lo,
            hi <= data@.len(),
            data@.len() == old(data)@.len(),
            n > 0 ==> k >= 1,
            permutes(old(data)@, data@, lo as int, hi as int),
            heap_ordered_from(data@, lo as int, k as int, 0),
            sorted_between(data@, lo as int + k as int, hi as int),
            forall|a: int, b: int|
                (lo as int) <= a < lo as int + k as int <= b < hi as int ==> data@[a] <= data@[b],
        decreases k,
    {
        k = k - 1;
        let ghost s1 = data@;
        proof {
            assert forall|c: int| 0 <= c < k as int + 1 implies s1[lo as int] >= #[trigger] s1[lo as int + c] by {
                lemma_heap_root_max(s1, lo as int, k as int + 1, c);
            }
        }
        swap_entries(data, lo, lo + k);
        let ghost s2 = data@;
        proof {
            lemma_swap_permutes(s1, lo as int, hi as int, lo as int, lo as int + k as int);
            lemma_permutes_trans(old(data)@, s1, s2, lo as int, hi as int);
        }
        heapify(data, lo, k, 0);
        proof {
            lemma_permutes_widen(
                s2,
                data@,
                lo as int,
                hi as int,
                lo as int,
                lo as int + k as int,
            );
            lemma_permutes_trans(old(data)@, s2, data@, lo as int, hi as int);
            let piv = s2[lo as int + k as int];
            assert forall|c: int| (lo as int) <= c < lo as int + k as int implies s2[c]
                <= piv by {
                if c == lo as int {
                    lemma_heap_root_max(s1, lo as int, k as int + 1, k as int);
                } else {
                    lemma_heap_root_max(s1, lo as int, k as int + 1, c - lo as int);
                    assert(s2[c] == s1[c]);
                }
            }
            lemma_permutes_carries_pred(
                s2,
                data@,
                lo as int,
                lo as int + k as int,
                |x: i64| x <= piv,
            );
        }
    }
}

/// Sorts `data` in ascending order using heapsort.
pub fn heap_sort(data: &mut Vec<i64>)
    ensures
        sorted(final(data)@),
        final(data)@.to_multiset() == old(data)@.to_multiset(),
        final(data)@.len() == old(data)@.len(),
{
    let n = data.len();
    heap_sort_segment(data, 0, n);
    proof {
        lemma_permutes_whole(old(data)@, data@, 0, n as int);
    }
}

} // verus!
