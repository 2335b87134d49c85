use vstd::prelude::*;

use crate::permutation::{lemma_same_multiset_keeps_all, swap_entries};

verus! {

/// Every element is at most each element that follows it.
pub open spec fn sorted(s: Seq<i32>) -> bool {
    forall|i: int, j: int| 0 <= i <= j < s.len() ==> s[i] <= s[j]
}

/// Sorts `v` in place into ascending order.
pub fn qsort(v: &mut [i32])
    ensures
        sorted(final(v)@),
        final(v)@.len() == old(v)@.len(),
        final(v)@.to_multiset() == old(v)@.to_multiset(),
    decreases old(v)@.len(),
{
    let n = v.len();
    if n <= 1 {
        return;
    }
    let ghost start = v@;
    let pivot = v[0];
    let mut smaller: usize = 0;
    let mut i: usize = 1;
    while i < n
        invariant
            n == v@.len(),
            1 <= i <= n,
            smaller < i,
            v@[0] == pivot,
            forall|k: int| 1 <= k <= smaller ==> v@[k] < pivot,
            forall|k: int| smaller < k < i ==> v@[k] >= pivot,
            v@.to_multiset() == start.to_multiset(),
        decreases n - i,
    {
        if v[i] < pivot {
            smaller = smaller + 1;
            swap_entries(v, smaller, i);
        }
        i = i + 1;
    }
    swap_entries(v, 0, smaller);
    let ghost parted = v@;
    assert(forall|k: int| 0 <= k < smaller ==> parted[k] < pivot);
    assert(forall|k: int| smaller < k < n ==> parted[k] >= pivot);
    let ghost lo = parted.subrange(0, smaller as int);
    let ghost hi = parted.subrange(smaller as int + 1, n as int);
    assert(parted.subrange(smaller as int, n as int).subrange(1, n - smaller) =~= hi);
    let (left, rest) = v.split_at_mut(smaller);
    qsort(left);
    let (middle, right) = rest.split_at_mut(1);
    assert(right@ == hi);
    qsort(right);
    proof {
        let below = |x: i32| x < pivot;
        let above = |x: i32| x >= pivot;
        lemma_same_multiset_keeps_all(lo, left@, below);
        lemma_same_multiset_keeps_all(hi, right@, above);
        assert(middle@ =~= seq![pivot]);
        assert(v@ =~= left@ + middle@ + right@);
        assert(parted =~= lo + middle@ + hi);
        vstd::seq_lib::lemma_multiset_commutative(left@, middle@);
        vstd::seq_lib::lemma_multiset_commutative(lo, middle@);
        vstd::seq_lib::lemma_multiset_commutative(left@ + middle@, right@);
        vstd::seq_lib::lemma_multiset_commutative(lo + middle@, hi);
        assert forall|a: int, b: int| 0 <= a <= b < v@.len() implies v@[a] <= v@[b] by {
            if b < smaller {
                assert(left@[a] <= left@[b]);
            } else if a > smaller {
                assert(right@[a - smaller - 1] <= right@[b - smaller - 1]);
            } else if a < smaller {
                assert(below(left@[a]));
                if b > smaller {
                    assert(above(right@[b - smaller - 1]));
                }
            } else if b > smaller {
                assert(above(right@[b - smaller - 1]));
            }
        }
    }
}

} // verus!
