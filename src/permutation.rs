use vstd::prelude::*;

verus! {

broadcast use {
    vstd::seq_lib::to_multiset_update,
    vstd::seq_lib::to_multiset_contains,
    vstd::seq_lib::lemma_multiset_commutative,
    vstd::multiset::group_multiset_axioms,
};

/// Exchanging two entries of a sequence keeps its multiset of elements.
pub proof fn lemma_swap_keeps_multiset<A>(s: Seq<A>, i: int, j: int)
    requires
        0 <= i < s.len(),
        0 <= j < s.len(),
    ensures
        s.update(i, s[j]).update(j, s[i]).to_multiset() == s.to_multiset(),
{
    let t = s.update(i, s[j]);
    assert(t[j] == s[j]);
    assert(t.update(j, s[i]).to_multiset() =~= s.to_multiset());
}

/// A property held by every element of a sequence is held by every element of
/// any sequence with the same multiset of elements.
pub proof fn lemma_same_multiset_keeps_all<A>(a: Seq<A>, b: Seq<A>, pred: spec_fn(A) -> bool)
    requires
        a.to_multiset() == b.to_multiset(),
        forall|k: int| 0 <= k < a.len() ==> #[trigger] pred(a[k]),
    ensures
        forall|k: int| 0 <= k < b.len() ==> #[trigger] pred(b[k]),
{
    assert forall|k: int| 0 <= k < b.len() implies #[trigger] pred(b[k]) by {
        assert(b.contains(b[k]));
        assert(b.to_multiset().count(b[k]) > 0);
        assert(a.to_multiset().count(b[k]) > 0);
        assert(a.contains(b[k]));
        let w = choose|w: int| 0 <= w < a.len() && a[w] == b[k];
        assert(pred(a[w]));
    }
}

/// Exchanges the entries at `i` and `j`.
pub fn swap_entries<T: Copy>(v: &mut [T], i: usize, j: usize)
    requires
        i < old(v)@.len(),
        j < old(v)@.len(),
    ensures
        final(v)@ == old(v)@.update(i as int, old(v)@[j as int]).update(j as int, old(v)@[i as int]),
        final(v)@.to_multiset() == old(v)@.to_multiset(),
{
    proof {
        lemma_swap_keeps_multiset(v@, i as int, j as int);
    }
    let a = v[i];
    let b = v[j];
    v[i] = b;
    v[j] = a;
}

} // verus!
