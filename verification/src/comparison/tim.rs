//! A run-based adaptive sort in the style of timsort: it measures the run at
//! the front of the sequence, reverses it when it is descending, and finishes
//! with a stable insertion pass. The comparator is pluggable: the `_by`
//! variants take a strict-order predicate.

use vstd::prelude::*;
use crate::order::{lemma_permutes_trans, lemma_permutes_whole, lemma_swap_permutes, permutes,
    sorted, swap_entries};

verus! {

/// Judged by the strict order `lt`, no entry of `[lo, hi)` is below an
/// earlier one.
pub open spec fn sorted_under_between(
    s: Seq<i64>,
    lo: int,
    hi: int,
    lt: spec_fn(i64, i64) -> bool,
) -> bool {
    forall|i: int, j: int| lo <= i <= j < hi ==> !lt(s[j], s[i])
}

/// Judged by the strict order `lt`, the whole sequence is in order.
pub open spec fn sorted_under(s: Seq<i64>, lt: spec_fn(i64, i64) -> bool) -> bool {
    sorted_under_between(s, 0, s.len() as int, lt)
}

/// The executable comparator `less` computes the strict order `lt`: it may be
/// called on any pair, and every call returns exactly `lt` of its arguments.
pub open spec fn computes_lt<F: Fn(i64, i64) -> bool>(
    less: F,
    lt: spec_fn(i64, i64) -> bool,
) -> bool {
    &&& forall|a: i64, b: i64| #[trigger] call_requires(less, (a, b))
    &&& forall|a: i64, b: i64, r: bool| #[trigger] call_ensures(less, (a, b), r) ==> r == lt(a, b)
}

/// `lt` behaves as a strict order: it is asymmetric, and its complement is
/// transitive.
pub open spec fn strict_order(lt: spec_fn(i64, i64) -> bool) -> bool {
    &&& forall|x: i64, y: i64| #[trigger] lt(x, y) ==> !lt(y, x)
    &&& forall|x: i64, y: i64, z: i64|
            #![trigger lt(x, y), lt(y, z)]
            !lt(x, y) && !lt(y, z) ==> !lt(x, z)
}

/// Measures the run at the front of `[lo, hi)` under the comparator `less`:
/// returns its length, and whether it is descending. An ascending run never
/// steps down (`!lt`), a descending run always steps strictly down (`lt`),
/// and the run is maximal.
pub fn count_run_by<F: Fn(i64, i64) -> bool + Copy>(
    data: &Vec<i64>,
    lo: usize,
    hi: usize,
    less: F,
    Ghost(lt): Ghost<spec_fn(i64, i64) -> bool>,
) -> (r: (usize, bool))
    requires
        lo < hi <= data@.len(),
        computes_lt(less, lt),
    ensures
        1 <= r.0 <= hi - lo,
        r.1 == (hi - lo >= 2 && lt(data@[lo as int + 1], data@[lo as int])),
        !r.1 ==> forall|k: int|
            (lo as int) < k < lo as int + r.0 as int ==> !lt(data@[k], #[trigger] data@[k - 1]),
        r.1 ==> forall|k: int|
            (lo as int) < k < lo as int + r.0 as int ==> lt(data@[k], #[trigger] data@[k - 1]),
        lo as int + (r.0 as int) < hi as int ==> (r.1 <==> !lt(
            data@[lo as int + r.0 as int],
            data@[lo as int + r.0 as int - 1],
        )),
{
    let len = hi - lo;
    if len < 2 {
        return (len, false);
    }

    let mut i: usize = 1;
    let descending = less(data[lo + 1], data[lo]);

    while i + 1 < len
        invariant_except_break
            1 <= i <= len - 1,
            len == hi - lo,
            hi <= data@.len(),
            computes_lt(less, lt),
            descending == lt(data@[lo as int + 1], data@[lo as int]),
            descending ==> forall|k: int|
                (lo as int) < k <= lo as int + i as int ==> lt(data@[k], #[trigger] data@[k - 1]),
            !descending ==> forall|k: int|
                (lo as int) < k <= lo as int + i as int ==> !lt(data@[k], #[trigger] data@[k - 1]),
        ensures
            1 <= i <= len - 1,
            descending ==> forall|k: int|
                (lo as int) < k <= lo as int + i as int ==> lt(data@[k], #[trigger] data@[k - 1]),
            !descending ==> forall|k: int|
                (lo as int) < k <= lo as int + i as int ==> !lt(data@[k], #[trigger] data@[k - 1]),
            i + 1 < len ==> (descending <==> !lt(
                data@[lo as int + i as int + 1],
                data@[lo as int + i as int],
            )),
        decreases len - i - 1,
    {
        if descending {
            if less(data[lo + i + 1], data[lo + i]) {
                i = i + 1;
            } else {
                break;
            }
        } else {
            if less(data[lo + i + 1], data[lo + i]) {
                break;
            } else {
                i = i + 1;
            }
        }
    }

    (i + 1, descending)
}

/// Measures the run at the front of `[lo, hi)` under the natural ascending
/// order: returns its length, and whether it is descending.
pub fn count_run(data: &Vec<i64>, lo: usize, hi: usize) -> (r: (usize, bool))
    requires
        lo < hi <= data@.len(),
    ensures
        1 <= r.0 <= hi - lo,
        r.1 == (hi - lo >= 2 && data@[lo as int + 1] < data@[lo as int]),
        !r.1 ==> forall|k: int|
            (lo as int) < k < lo as int + r.0 as int ==> #[trigger] data@[k - 1] <= data@[k],
        r.1 ==> forall|k: int|
            (lo as int) < k < lo as int + r.0 as int ==> data@[k] < #[trigger] data@[k - 1],
        lo as int + (r.0 as int) < hi as int ==> (r.1 <==> data@[lo as int + r.0 as int - 1] <= data@[lo as int + r.0 as int]),
{
    let less = |a: i64, b: i64| -> (r: bool)
        ensures
            r == (a < b),
        { a < b };
    let ghost lt = |a: i64, b: i64| a < b;
    count_run_by(data, lo, hi, less, Ghost(lt))
}

/// Reverses the segment `[lo, hi)` in place.
fn reverse_segment(data: &mut Vec<i64>, lo: usize, hi: usize)
    requires
        lo <= hi <= old(data)@.len(),
    ensures
        permutes(old(data)@, final(data)@, lo as int, hi as int),
        forall|k: int|
            (lo as int) <= k < (hi as int) ==> final(data)@[k] == old(data)@[lo as int + hi as int
                - 1 - k],
{
    let mut a = lo;
    let mut b = hi;
    while b - a >= 2
        invariant
            lo <= a <= b <= hi,
            hi <= data@.len(),
            a as int - lo as int == hi as int - b as int,
            data@.len() == old(data)@.len(),
            permutes(old(data)@, data@, lo as int, hi as int),
            forall|k: int| (lo as int) <= k < (a as int) ==> data@[k] == old(data)@[lo as int
                + hi as int - 1 - k],
            forall|k: int| (b as int) <= k < (hi as int) ==> data@[k] == old(data)@[lo as int
                + hi as int - 1 - k],
            forall|k: int| (a as int) <= k < (b as int) ==> data@[k] == old(data)@[k],
        decreases b - a,
    {
        b = b - 1;
        let ghost s1 = data@;
        swap_entries(data, a, b);
        proof {
            lemma_swap_permutes(s1, lo as int, hi as int, a as int, b as int);
            lemma_permutes_trans(old(data)@, s1, data@, lo as int, hi as int);
        }
        a = a + 1;
    }
}

/// Sorts `data` under the strict order `lt`, computed by `less`: finds the
/// run at the front, reverses it if it is descending, then finishes with a
/// stable insertion pass under the same comparator. The result is always a
/// rearrangement of the input; it is in order whenever `lt` really is a
/// strict order (a comparator that is not one yields an unspecified
/// rearrangement, never a crash).
pub fn tim_sort_by<F: Fn(i64, i64) -> bool + Copy>(
    data: &mut Vec<i64>,
    less: F,
    Ghost(lt): Ghost<spec_fn(i64, i64) -> bool>,
)
    requires
        computes_lt(less, lt),
    ensures
        strict_order(lt) ==> sorted_under(final(data)@, lt),
        final(data)@.to_multiset() == old(data)@.to_multiset(),
        final(data)@.len() == old(data)@.len(),
{
    let n = data.len();
    if n < 2 {
        assert(data@.to_multiset() =~= old(data)@.to_multiset());
        return;
    }

    let (run_len, descending) = count_run_by(data, 0, n, less, Ghost(lt));
    let ghost s0 = data@;
    if descending {
        reverse_segment(data, 0, run_len);
        proof {
            lemma_permutes_whole(s0, data@, 0, run_len as int);
        }
    }

    // Insertion pass under `less`.
    let ghost s1 = data@;
    let mut i: usize = 1;
    while i < n
        invariant
            1 <= i,
            n == data@.len(),
            computes_lt(less, lt),
            strict_order(lt) ==> sorted_under_between(data@, 0, i as int, lt),
            permutes(s1, data@, 0, n as int),
        decreases n - i,
    {
        let mut j: usize = i;
        while j > 0 && less(data[j], data[j - 1])
            invariant
                0 <= j <= i < n,
                n == data@.len(),
                computes_lt(less, lt),
                strict_order(lt) ==> sorted_under_between(data@, 0, j as int, lt),
                strict_order(lt) ==> sorted_under_between(data@, j as int, i as int + 1, lt),
                strict_order(lt) && j > 0 && j < i ==> !lt(
                    data@[j as int + 1],
                    data@[j as int - 1],
                ),
                permutes(s1, data@, 0, n as int),
            decreases j,
        {
            let ghost before = data@;
            swap_entries(data, j, j - 1);
            proof {
                lemma_swap_permutes(before, 0, n as int, j as int, j as int - 1);
                lemma_permutes_trans(s1, before, data@, 0, n as int);
            }
            j = j - 1;
        }
        i = i + 1;
    }
    proof {
        lemma_permutes_whole(s1, data@, 0, n as int);
        if descending {
            lemma_permutes_whole(s0, s1, 0, run_len as int);
        }
    }
}

/// Sorts `data` in ascending order: a run-based adaptive sort finished by a
/// stable insertion pass.
pub fn tim_sort(data: &mut Vec<i64>)
    ensures
        sorted(final(data)@),
        final(data)@.to_multiset() == old(data)@.to_multiset(),
        final(data)@.len() == old(data)@.len(),
{
    let less = |a: i64, b: i64| -> (r: bool)
        ensures
            r == (a < b),
        { a < b };
    let ghost lt = |a: i64, b: i64| a < b;
    proof {
        assert(strict_order(lt));
    }
    tim_sort_by(data, less, Ghost(lt));
    proof {
        assert forall|i: int, j: int| 0 <= i <= j < data@.len() implies data@[i] <= data@[j] by {
            assert(!lt(data@[j], data@[i]));
        }
    }
}

} // verus!
