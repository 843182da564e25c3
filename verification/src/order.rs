//! Shared vocabulary of the sorting routines: what it means for a segment to
//! be sorted, what an in-place rearrangement of a segment is, and the lemmas
//! that connect the two.

use vstd::prelude::*;
use vstd::seq_lib::group_to_multiset_ensures;

verus! {

/// The segment `[lo, hi)` of `s` is in non-decreasing order.
pub open spec fn sorted_between(s: Seq<i64>, lo: int, hi: int) -> bool {
    forall|i: int, j: int| lo <= i <= j < hi ==> s[i] <= s[j]
}

/// The whole sequence is in non-decreasing order.
pub open spec fn sorted(s: Seq<i64>) -> bool {
    sorted_between(s, 0, s.len() as int)
}

/// `b` is `a` with the segment `[lo, hi)` rearranged in place: same length,
/// equal outside the segment, and the segment holds the same multiset of
/// values.
pub open spec fn permutes(a: Seq<i64>, b: Seq<i64>, lo: int, hi: int) -> bool {
    &&& a.len() == b.len()
    &&& a.subrange(lo, hi).to_multiset() == b.subrange(lo, hi).to_multiset()
    &&& forall|k: int| 0 <= k < a.len() && !(lo <= k < hi) ==> a[k] == b[k]
}

/// Exchanges the entries at `a` and `b`.
pub fn swap_entries(v: &mut Vec<i64>, a: usize, b: usize)
    requires
        a < old(v)@.len(),
        b < old(v)@.len(),
    ensures
        final(v)@ == old(v)@.update(a as int, old(v)@[b as int]).update(
            b as int,
            old(v)@[a as int],
        ),
        final(v)@.len() == old(v)@.len(),
{
    let x = v[a];
    let y = v[b];
    v[a] = y;
    v[b] = x;
}

/// Swapping two entries of a segment rearranges that segment in place.
pub proof fn lemma_swap_permutes(s: Seq<i64>, lo: int, hi: int, a: int, b: int)
    requires
        0 <= lo <= a < hi <= s.len(),
        lo <= b < hi,
    ensures
        permutes(s, s.update(a, s[b]).update(b, s[a]), lo, hi),
{
    broadcast use group_to_multiset_ensures;

    let t = s.update(a, s[b]).update(b, s[a]);
    let ss = s.subrange(lo, hi);
    let ts = t.subrange(lo, hi);
    assert(ts =~= ss.update(a - lo, ss[b - lo]).update(b - lo, ss[a - lo]));
    if a == b {
        assert(ts =~= ss);
    } else {
        let mid = ss.update(a - lo, ss[b - lo]);
        assert(mid.to_multiset() == ss.to_multiset().insert(ss[b - lo]).remove(ss[a - lo]));
        assert(mid[b - lo] == ss[b - lo]);
        assert(ts.to_multiset() == mid.to_multiset().insert(ss[a - lo]).remove(mid[b - lo]));
        assert(ss.to_multiset().contains(ss[a - lo]));
        assert(ss.to_multiset().contains(ss[b - lo]));
        assert(ts.to_multiset() =~= ss.to_multiset());
    }
}

/// Rearranging in place is reflexive.
pub proof fn lemma_permutes_refl(a: Seq<i64>, lo: int, hi: int)
    ensures
        permutes(a, a, lo, hi),
{
}

/// Two successive in-place rearrangements of the same segment compose.
pub proof fn lemma_permutes_trans(a: Seq<i64>, b: Seq<i64>, c: Seq<i64>, lo: int, hi: int)
    requires
        permutes(a, b, lo, hi),
        permutes(b, c, lo, hi),
    ensures
        permutes(a, c, lo, hi),
{
}

/// A rearrangement of an inner segment is also a rearrangement of any
/// enclosing segment.
pub proof fn lemma_permutes_widen(a: Seq<i64>, b: Seq<i64>, lo: int, hi: int, lo2: int, hi2: int)
    requires
        0 <= lo <= lo2 <= hi2 <= hi <= a.len(),
        permutes(a, b, lo2, hi2),
    ensures
        permutes(a, b, lo, hi),
{
    broadcast use group_to_multiset_ensures;
    broadcast use vstd::seq_lib::lemma_multiset_commutative;

    let al = a.subrange(lo, lo2);
    let am = a.subrange(lo2, hi2);
    let ar = a.subrange(hi2, hi);
    let bl = b.subrange(lo, lo2);
    let bm = b.subrange(lo2, hi2);
    let br = b.subrange(hi2, hi);
    assert(al =~= bl);
    assert(ar =~= br);
    assert(a.subrange(lo, hi) =~= al + am + ar);
    assert(b.subrange(lo, hi) =~= bl + bm + br);
    assert((al + am + ar).to_multiset() =~= al.to_multiset().add(am.to_multiset()).add(
        ar.to_multiset(),
    ));
    assert((bl + bm + br).to_multiset() =~= bl.to_multiset().add(bm.to_multiset()).add(
        br.to_multiset(),
    ));
    assert(a.subrange(lo, hi).to_multiset() =~= b.subrange(lo, hi).to_multiset());
}

/// A rearrangement of a segment preserves the multiset of the whole sequence.
pub proof fn lemma_permutes_whole(a: Seq<i64>, b: Seq<i64>, lo: int, hi: int)
    requires
        0 <= lo <= hi <= a.len(),
        permutes(a, b, lo, hi),
    ensures
        a.to_multiset() == b.to_multiset(),
{
    lemma_permutes_widen(a, b, 0, a.len() as int, lo, hi);
    assert(a.subrange(0, a.len() as int) =~= a);
    assert(b.subrange(0, b.len() as int) =~= b);
}

/// A bound that holds for every element of a sequence carries over to every
/// element of any sequence with the same multiset of values.
pub proof fn lemma_multiset_carries_pred(a: Seq<i64>, b: Seq<i64>, p: spec_fn(i64) -> bool)
    requires
        a.to_multiset() == b.to_multiset(),
        forall|i: int| 0 <= i < a.len() ==> p(#[trigger] a[i]),
    ensures
        forall|i: int| 0 <= i < b.len() ==> p(#[trigger] b[i]),
{
    broadcast use group_to_multiset_ensures;

    assert forall|i: int| 0 <= i < b.len() implies p(#[trigger] b[i]) by {
        assert(b.contains(b[i]));
        assert(b.to_multiset().count(b[i]) > 0);
        assert(a.contains(b[i]));
        let j = choose|j: int| 0 <= j < a.len() && a[j] == b[i];
        assert(p(a[j]));
    }
}

/// Every element of the segment `[lo, hi)` of `b` satisfies a bound that held
/// for every element of the same segment of `a`, as long as the two segments
/// hold the same values.
pub proof fn lemma_permutes_carries_pred(
    a: Seq<i64>,
    b: Seq<i64>,
    lo: int,
    hi: int,
    p: spec_fn(i64) -> bool,
)
    requires
        0 <= lo <= hi <= a.len(),
        permutes(a, b, lo, hi),
        forall|i: int| lo <= i < hi ==> p(#[trigger] a[i]),
    ensures
        forall|i: int| lo <= i < hi ==> p(#[trigger] b[i]),
{
    let asub = a.subrange(lo, hi);
    let bsub = b.subrange(lo, hi);
    assert(forall|i: int| 0 <= i < asub.len() ==> p(#[trigger] asub[i]));
    lemma_multiset_carries_pred(asub, bsub, p);
    assert forall|i: int| lo <= i < hi implies p(#[trigger] b[i]) by {
        assert(b[i] == bsub[i - lo]);
    }
}

/// Every pair of positions of `[lo, hi)` at distance at least `gap` is
/// correctly ordered: no unsorted run longer than `gap` survives in the
/// segment.
pub open spec fn nearly_sorted_between(s: Seq<i64>, lo: int, hi: int, gap: int) -> bool {
    forall|i: int, j: int| lo <= i <= j < hi && j - i >= gap ==> s[i] <= s[j]
}

/// After a two-sided partition of `[lo, hi)` at boundary `p` (`s1`),
/// approximately sorting the left region in place (`s2`) and then the right
/// region in place (`s3`) leaves the whole segment approximately sorted, at
/// the same gap: ordering across the boundary holds at every distance.
pub proof fn lemma_partition_recursion_nearly_sorted(
    s1: Seq<i64>,
    s2: Seq<i64>,
    s3: Seq<i64>,
    lo: int,
    p: int,
    hi: int,
    gap: int,
)
    requires
        0 <= lo <= p < hi <= s1.len(),
        forall|k: int| lo <= k < p ==> s1[k] <= s1[p],
        forall|k: int| p < k < hi ==> s1[k] >= s1[p],
        permutes(s1, s2, lo, p),
        nearly_sorted_between(s2, lo, p, gap),
        permutes(s2, s3, p + 1, hi),
        nearly_sorted_between(s3, p + 1, hi, gap),
    ensures
        permutes(s1, s3, lo, hi),
        nearly_sorted_between(s3, lo, hi, gap),
{
    let piv = s1[p];
    lemma_permutes_widen(s1, s2, lo, hi, lo, p);
    lemma_permutes_widen(s2, s3, lo, hi, p + 1, hi);
    lemma_permutes_trans(s1, s2, s3, lo, hi);
    lemma_permutes_carries_pred(s1, s2, lo, p, |x: i64| x <= piv);
    assert(forall|k: int| p + 1 <= k < hi ==> s2[k] >= piv);
    lemma_permutes_carries_pred(s2, s3, p + 1, hi, |x: i64| x >= piv);
    assert(s3[p] == piv);
    assert(forall|k: int| lo <= k < p ==> s3[k] == s2[k]);
    assert forall|i: int, j: int| lo <= i <= j < hi && j - i >= gap implies s3[i] <= s3[j] by {
        if j < p {
            assert(s2[i] <= s2[j]);
        } else if i > p {
        } else {
            if i < p {
                assert(s3[i] <= piv);
            }
            if j > p {
                assert(s3[j] >= piv);
            }
        }
    }
}

/// After a two-sided partition of `[lo, hi)` at boundary `p` (`s1`), sorting
/// the left region in place (`s2`) and then the right region in place (`s3`)
/// leaves the whole segment sorted and rearranged in place.
pub proof fn lemma_partition_recursion_sorted(
    s1: Seq<i64>,
    s2: Seq<i64>,
    s3: Seq<i64>,
    lo: int,
    p: int,
    hi: int,
)
    requires
        0 <= lo <= p < hi <= s1.len(),
        forall|k: int| lo <= k < p ==> s1[k] <= s1[p],
        forall|k: int| p < k < hi ==> s1[k] >= s1[p],
        permutes(s1, s2, lo, p),
        sorted_between(s2, lo, p),
        permutes(s2, s3, p + 1, hi),
        sorted_between(s3, p + 1, hi),
    ensures
        permutes(s1, s3, lo, hi),
        sorted_between(s3, lo, hi),
{
    let piv = s1[p];
    lemma_permutes_widen(s1, s2, lo, hi, lo, p);
    lemma_permutes_widen(s2, s3, lo, hi, p + 1, hi);
    lemma_permutes_trans(s1, s2, s3, lo, hi);
    lemma_permutes_carries_pred(s1, s2, lo, p, |x: i64| x <= piv);
    assert(forall|k: int| p + 1 <= k < hi ==> s2[k] >= piv);
    lemma_permutes_carries_pred(s2, s3, p + 1, hi, |x: i64| x >= piv);
    assert(s3[p] == piv);
    assert(forall|k: int| lo <= k < p ==> s3[k] == s2[k]);
    assert forall|i: int, j: int| lo <= i <= j < hi implies s3[i] <= s3[j] by {
        if j < p {
            assert(s2[i] <= s2[j]);
        } else if i > p {
        } else {
            if i < p {
                assert(s3[i] <= piv);
            }
            if j > p {
                assert(s3[j] >= piv);
            }
        }
    }
}

/// After a three-way partition of `[lo, hi)` into `(lt, gt)` (`s1`), sorting
/// the strictly-below region in place (`s2`) and then the strictly-above
/// region in place (`s3`) leaves the whole segment sorted and rearranged in
/// place.
pub proof fn lemma_three_way_recursion_sorted(
    s1: Seq<i64>,
    s2: Seq<i64>,
    s3: Seq<i64>,
    lo: int,
    lt: int,
    gt: int,
    hi: int,
)
    requires
        0 <= lo <= lt <= gt < hi <= s1.len(),
        forall|k: int| lo <= k < lt ==> s1[k] < s1[gt],
        forall|k: int| lt <= k <= gt ==> s1[k] == s1[gt],
        forall|k: int| gt < k < hi ==> s1[k] > s1[gt],
        permutes(s1, s2, lo, lt),
        sorted_between(s2, lo, lt),
        permutes(s2, s3, gt + 1, hi),
        sorted_between(s3, gt + 1, hi),
    ensures
        permutes(s1, s3, lo, hi),
        sorted_between(s3, lo, hi),
{
    let piv = s1[gt];
    lemma_permutes_widen(s1, s2, lo, hi, lo, lt);
    lemma_permutes_widen(s2, s3, lo, hi, gt + 1, hi);
    lemma_permutes_trans(s1, s2, s3, lo, hi);
    lemma_permutes_carries_pred(s1, s2, lo, lt, |x: i64| x < piv);
    assert(forall|k: int| gt + 1 <= k < hi ==> s2[k] > piv);
    lemma_permutes_carries_pred(s2, s3, gt + 1, hi, |x: i64| x > piv);
    assert(forall|k: int| lo <= k <= gt ==> s3[k] == s2[k]);
    assert(forall|k: int| lt <= k <= gt ==> s3[k] == piv);
    assert forall|i: int, j: int| lo <= i <= j < hi implies s3[i] <= s3[j] by {
        if j < lt {
            assert(s2[i] <= s2[j]);
        } else if i > gt {
        } else {
            if i < lt {
                assert(s3[i] < piv);
            }
            if j > gt {
                assert(s3[j] > piv);
            } else if lt <= j {
                assert(s3[j] == piv);
            }
            if lt <= i {
                assert(s3[i] == piv);
            }
        }
    }
}

/// Two sorted sequences holding the same multiset of values are the same
/// sequence. This is the heart of idempotence: a sorting pass over an
/// already-sorted sequence returns it unchanged, so sorting twice gives the
/// same result as sorting once.
pub proof fn lemma_sorted_permutation_unique(a: Seq<i64>, b: Seq<i64>)
    requires
        sorted(a),
        sorted(b),
        a.to_multiset() == b.to_multiset(),
    ensures
        a == b,
    decreases a.len(),
{
    broadcast use group_to_multiset_ensures;

    if a.len() == 0 {
        assert(a.to_multiset().len() == a.len());
        assert(b.to_multiset().len() == b.len());
        assert(a =~= b);
    } else {
        assert(a.to_multiset().len() == a.len());
        assert(b.to_multiset().len() == b.len());
        assert(b.len() > 0);
        // The heads are equal: each is a least element of the shared multiset.
        assert(a.to_multiset().contains(a[0]));
        assert(b.to_multiset().contains(b[0]));
        assert(b.contains(a[0]));
        assert(a.contains(b[0]));
        let i = choose|i: int| 0 <= i < b.len() && b[i] == a[0];
        let j = choose|j: int| 0 <= j < a.len() && a[j] == b[0];
        assert(b[0] <= b[i]);
        assert(a[0] <= a[j]);
        assert(a[0] == b[0]);
        assert(a.remove(0).to_multiset() =~= a.to_multiset().remove(a[0]));
        assert(b.remove(0).to_multiset() =~= b.to_multiset().remove(b[0]));
        assert(sorted(a.remove(0)));
        assert(sorted(b.remove(0)));
        lemma_sorted_permutation_unique(a.remove(0), b.remove(0));
        assert(a =~= seq![a[0]] + a.remove(0));
        assert(b =~= seq![b[0]] + b.remove(0));
    }
}

} // verus!
