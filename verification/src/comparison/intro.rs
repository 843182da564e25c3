//! Introsort: quicksort with a recursion-depth budget of `2*floor(log2(n))`,
//! falling back to heapsort on any segment whose budget runs out, leaving
//! segments at or below a size threshold untouched, and finishing with a
//! single global insertion-sort pass over the whole sequence.

use vstd::prelude::*;
use crate::comparison::quick::{hoare, middle_of_three};
use crate::heap::heap_sort_segment;
use crate::insertion::insertion_sort;
use crate::order::{lemma_partition_recursion_nearly_sorted, lemma_permutes_refl,
    lemma_permutes_trans, lemma_permutes_whole, lemma_sorted_permutation_unique,
    nearly_sorted_between, permutes, sorted, sorted_between};

verus! {

/// Segments at or below this length are left for the final insertion-sort
/// pass instead of being partitioned further.
pub const INSERTION_THRESHOLD: usize = 16;

/// Two raised to the power `e`.
pub open spec fn pow2(e: nat) -> nat
    decreases e,
{
    if e == 0 {
        1
    } else {
        2 * pow2((e - 1) as nat)
    }
}

/// Two to the `e` exceeds `e`.
proof fn lemma_pow2_exceeds(e: nat)
    ensures
        pow2(e) >= e + 1,
    decreases e,
{
    if e > 0 {
        lemma_pow2_exceeds((e - 1) as nat);
    }
}

/// From exponent one upwards, two to the `e` is at least `2 * e`.
proof fn lemma_pow2_at_least_double(e: nat)
    requires
        e >= 1,
    ensures
        pow2(e) >= 2 * e,
{
    lemma_pow2_exceeds((e - 1) as nat);
}

/// Returns `floor(log2(n))`: the unique `r` with `2^r <= n < 2^(r+1)`.
pub fn floor_log2_usize(n: usize) -> (r: usize)
    requires
        n > 0,
    ensures
        pow2(r as nat) <= n < pow2(r as nat + 1),
{
    let mut x: usize = n;
    let mut r: usize = 0;
    proof {
        assert(pow2(0) == 1);
    }
    while x >= 2
        invariant
            x >= 1,
            r as int + 1 <= n as int,
            pow2(r as nat) * x <= n < pow2(r as nat) * (x + 1),
        decreases x,
    {
        let ghost p = pow2(r as nat);
        let ghost x0 = x as int;
        x = x / 2;
        r = r + 1;
        proof {
            assert(pow2(r as nat) == 2 * p);
            assert(x0 == 2 * (x as int) || x0 == 2 * (x as int) + 1);
            assert(2 * p * (x as int) <= p * x0) by (nonlinear_arith)
                requires
                    2 * (x as int) <= x0,
                    p >= 0,
            ;
            assert(p * (x0 + 1) <= 2 * p * ((x as int) + 1)) by (nonlinear_arith)
                requires
                    x0 + 1 <= 2 * ((x as int) + 1),
                    p >= 0,
            ;
            assert(2 * p * 1 <= 2 * p * (x as int)) by (nonlinear_arith)
                requires
                    1 <= x as int,
                    p >= 0,
            ;
            lemma_pow2_exceeds(r as nat);
        }
    }
    proof {
        assert(x == 1);
        assert(pow2(r as nat + 1) == 2 * pow2((r as nat + 1 - 1) as nat));
        assert((r as nat + 1 - 1) as nat == r as nat);
        assert(pow2(r as nat) * 1 == pow2(r as nat));
        assert(pow2(r as nat) * (1 + 1) == 2 * pow2(r as nat));
    }
    r
}

/// Sorts `data` in ascending order: depth-bounded quicksort with heapsort
/// fallback, then one global insertion-sort pass.
pub fn intro_sort(data: &mut Vec<i64>)
    ensures
        sorted(final(data)@),
        final(data)@.to_multiset() == old(data)@.to_multiset(),
        final(data)@.len() == old(data)@.len(),
{
    let n = data.len();
    if n <= 1 {
        return;
    }

    // Depth budget: twice the floor of the base-two logarithm of the length.
    let r = floor_log2_usize(n);
    proof {
        if r >= 1 {
            lemma_pow2_at_least_double(r as nat);
        }
    }
    let depth_limit = 2 * r;

    // Quicksort with fallback to heapsort; small segments are skipped.
    intro_sort_impl(data, depth_limit);

    // Final insertion sort of the nearly-sorted sequence.
    insertion_sort(data);
}

/// The recursive phase of introsort, run over the whole sequence with the
/// given depth budget. It rearranges the sequence; segments at or below the
/// threshold are left untouched, and a sequence longer than the threshold
/// whose budget is already exhausted is handed entirely to heapsort, hence
/// comes back sorted.
pub fn intro_sort_impl(data: &mut Vec<i64>, depth_lim: usize)
    ensures
        final(data)@.to_multiset() == old(data)@.to_multiset(),
        final(data)@.len() == old(data)@.len(),
        old(data)@.len() <= INSERTION_THRESHOLD ==> final(data)@ == old(data)@,
        nearly_sorted_between(
            final(data)@,
            0,
            old(data)@.len() as int,
            INSERTION_THRESHOLD as int,
        ),
        depth_lim == 0 && old(data)@.len() > INSERTION_THRESHOLD ==> sorted(final(data)@),
{
    let n = data.len();
    intro_sort_segment(data, 0, n, depth_lim);
    proof {
        lemma_permutes_whole(old(data)@, data@, 0, n as int);
    }
}

/// Depth-bounded quicksort over the segment `[lo, hi)`: short segments are
/// left untouched, an exhausted budget delegates the segment to heapsort,
/// and otherwise the segment is Hoare-partitioned around a median-of-three
/// pivot and both sides recurse with one less level of budget.
fn intro_sort_segment(data: &mut Vec<i64>, lo: usize, hi: usize, depth_lim: usize)
    requires
        lo <= hi <= old(data)@.len(),
    ensures
        permutes(old(data)@, final(data)@, lo as int, hi as int),
        hi - lo <= INSERTION_THRESHOLD ==> final(data)@ == old(data)@,
        nearly_sorted_between(final(data)@, lo as int, hi as int, INSERTION_THRESHOLD as int),
        depth_lim == 0 && hi - lo > INSERTION_THRESHOLD ==> sorted_between(
            final(data)@,
            lo as int,
            hi as int,
        ),
    decreases hi - lo,
{
    let length = hi - lo;
    if length <= INSERTION_THRESHOLD {
        proof {
            lemma_permutes_refl(data@, lo as int, hi as int);
        }
        return;
    }
    if depth_lim == 0 {
        heap_sort_segment(data, lo, hi);
        return;
    }

    let pivot = middle_of_three(data, lo, hi);
    let p = hoare(data, lo, hi, pivot);

    let ghost s1 = data@;
    intro_sort_segment(data, lo, p, depth_lim - 1);
    let ghost s2 = data@;
    intro_sort_segment(data, p + 1, hi, depth_lim - 1);
    proof {
        lemma_partition_recursion_nearly_sorted(
            s1,
            s2,
            data@,
            lo as int,
            p as int,
            hi as int,
            INSERTION_THRESHOLD as int,
        );
        lemma_permutes_trans(old(data)@, s1, data@, lo as int, hi as int);
    }
}

/// Idempotence of sorting: if `s1` is what `intro_sort` made of `s0`, and
/// `s2` is what `intro_sort` made of `s1` — each a sorted rearrangement of
/// its input, which is all `intro_sort` ensures — then the second pass
/// returned its input unchanged: sorting twice equals sorting once.
pub proof fn lemma_intro_sort_idempotent(s0: Seq<i64>, s1: Seq<i64>, s2: Seq<i64>)
    requires
        sorted(s1),
        s1.to_multiset() == s0.to_multiset(),
        sorted(s2),
        s2.to_multiset() == s1.to_multiset(),
    ensures
        s2 == s1,
{
    lemma_sorted_permutation_unique(s2, s1);
}

} // verus!
