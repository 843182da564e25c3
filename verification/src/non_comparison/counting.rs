//! Counting sort for unsigned keys: tallies how often each value occurs,
//! then writes the values back in ascending order. Not in place, not a
//! comparison sort; O(n + max) time and O(max) extra space.

use vstd::prelude::*;
use vstd::multiset::Multiset;
use vstd::multiset::group_multiset_axioms;
use vstd::seq_lib::group_to_multiset_ensures;

verus! {

/// The whole sequence of keys is in non-decreasing order.
pub open spec fn sorted_keys(s: Seq<u32>) -> bool {
    forall|i: int, j: int| 0 <= i <= j < s.len() ==> s[i] <= s[j]
}

/// The multiset `m` holds exactly the values of `all` below `value`, plus
/// `copies` occurrences of `value` itself and nothing above it.
pub open spec fn counted_up_to(m: Multiset<u32>, all: Multiset<u32>, value: int, copies: nat) -> bool {
    forall|v: u32|
        #[trigger] m.count(v) == if (v as int) < value {
            all.count(v)
        } else if v as int == value {
            copies
        } else {
            0
        }
}

/// Sorts `data` in ascending order using counting sort.
pub fn counting_sort(data: &mut Vec<u32>)
    ensures
        sorted_keys(final(data)@),
        final(data)@.to_multiset() == old(data)@.to_multiset(),
        final(data)@.len() == old(data)@.len(),
{
    broadcast use group_multiset_axioms;
    broadcast use group_to_multiset_ensures;

    let n = data.len();
    if n == 0 {
        return;
    }

    // The largest key bounds the table of tallies.
    let mut max: u32 = data[0];
    let mut i: usize = 1;
    while i < n
        invariant
            1 <= i <= n,
            n == data@.len(),
            forall|j: int| 0 <= j < i ==> data@[j] <= max,
        decreases n - i,
    {
        if data[i] > max {
            max = data[i];
        }
        i = i + 1;
    }

    // One tally per value from 0 to max.
    let mut counts: Vec<usize> = Vec::new();
    while counts.len() <= max as usize
        invariant
            counts@.len() <= max as int + 1,
            forall|j: int| 0 <= j < counts@.len() ==> counts@[j] == 0,
        decreases max as int + 1 - counts@.len(),
    {
        counts.push(0);
    }

    let ghost all = data@.to_multiset();

    // Tally every key.
    let mut i: usize = 0;
    while i < n
        invariant
            i <= n,
            n == data@.len(),
            data@ == old(data)@,
            counts@.len() == max as int + 1,
            forall|j: int| 0 <= j < n ==> data@[j] <= max,
            forall|v: u32| v <= max ==> counts@[v as int] == data@.take(i as int).to_multiset().count(v),
        decreases n - i,
    {
        let x = data[i];
        let xi = x as usize;
        proof {
            assert(data@.take(i as int).len() == i);
            vstd::seq_lib::to_multiset_len(data@.take(i as int));
            assert(data@.take(i as int).to_multiset().count(x) <= data@.take(
                i as int,
            ).to_multiset().len());
            assert(data@.take(i as int + 1) =~= data@.take(i as int).push(x));
            vstd::seq_lib::to_multiset_build(data@.take(i as int), x);
        }
        let c = counts[xi];
        counts[xi] = c + 1;
        i = i + 1;
    }
    proof {
        assert(data@.take(n as int) =~= data@);
        assert(forall|v: u32| v <= max ==> counts@[v as int] == all.count(v));
        assert(forall|v: u32| v > max ==> all.count(v) == 0) by {
            assert forall|v: u32| v > max implies all.count(v) == 0 by {
                if all.count(v) > 0 {
                    assert(data@.contains(v));
                }
            }
        }
        assert(all.len() == n);
    }

    // Write the keys back in ascending order.
    let mut i: usize = 0;
    let mut value: u64 = 0;
    proof {
        assert(data@.take(0).to_multiset() =~= Multiset::<u32>::empty());
    }
    while value <= max as u64
        invariant
            value <= max as u64 + 1,
            i <= n,
            n == data@.len(),
            counts@.len() == max as int + 1,
            forall|v: u32| v <= max ==> counts@[v as int] == all.count(v),
            forall|v: u32| v > max ==> all.count(v) == 0,
            all.len() == n,
            counted_up_to(data@.take(i as int).to_multiset(), all, value as int, 0),
            forall|q: int| 0 <= q < i ==> (data@[q] as int) < value as int,
            forall|a: int, b: int| 0 <= a <= b < i ==> data@[a] <= data@[b],
        decreases max as u64 - value + 1,
    {
        let cnt = counts[value as usize];
        let mut j: usize = 0;
        while j < cnt
            invariant
                j <= cnt,
                i <= n,
                n == data@.len(),
                value <= max as u64,
                cnt == all.count(value as u32),
                all.len() == n,
                counted_up_to(data@.take(i as int).to_multiset(), all, value as int, j as nat),
                forall|q: int| 0 <= q < i ==> (data@[q] as int) <= value as int,
                forall|a: int, b: int| 0 <= a <= b < i ==> data@[a] <= data@[b],
            decreases cnt - j,
        {
            proof {
                let m = data@.take(i as int).to_multiset();
                assert(m.subset_of(all));
                assert(data@.take(i as int).len() == i);
                vstd::seq_lib::to_multiset_len(data@.take(i as int));
                assert(all.sub(m).len() == all.len() - m.len());
                assert(m.len() == i);
                assert(all.sub(m).count(value as u32) == all.count(value as u32) - j);
                assert(all.sub(m).count(value as u32) <= all.sub(m).len());
                assert(i < n);
            }
            let ghost pre = data@;
            data[i] = value as u32;
            proof {
                assert(data@.take(i as int) =~= pre.take(i as int));
                assert(data@.take(i as int + 1) =~= pre.take(i as int).push(value as u32));
                vstd::seq_lib::to_multiset_build(pre.take(i as int), value as u32);
            }
            i = i + 1;
            j = j + 1;
        }
        value = value + 1;
    }

    proof {
        let m = data@.take(i as int).to_multiset();
        assert(data@.take(i as int).len() == i);
        vstd::seq_lib::to_multiset_len(data@.take(i as int));
        assert(m =~= all);
        assert(m.len() == i);
        assert(i == n);
        assert(data@.take(n as int) =~= data@);
    }
}

} // verus!
