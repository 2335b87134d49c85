use vstd::prelude::*;

use crate::permutation::lemma_same_multiset_keeps_all;
use crate::random::shuffle;

verus! {

/// Number of lattice gradients, and length of each permutation table.
pub const POINT_COUNT: usize = 256;

/// The numbers `0, 1, ..., n - 1` in order.
pub open spec fn identity(n: nat) -> Seq<usize> {
    Seq::new(n, |i: int| i as usize)
}

/// `s` holds each of `0, 1, ..., POINT_COUNT - 1` exactly once.
pub open spec fn is_permutation(s: Seq<usize>) -> bool {
    s.to_multiset() == identity(POINT_COUNT as nat).to_multiset()
}

/// The table slot that lattice coordinate `c` falls in: its low eight bits.
pub open spec fn slot(c: i32) -> int {
    (c & 255i32) as int
}

/// The three permutation tables of Perlin noise, one per axis. A lattice
/// corner is hashed to a gradient index by combining one entry of each.
pub struct PerlinPermutations {
    perm_x: Vec<usize>,
    perm_y: Vec<usize>,
    perm_z: Vec<usize>,
}

impl PerlinPermutations {
    /// The table for the x coordinate.
    pub closed spec fn table_x(&self) -> Seq<usize> {
        self.perm_x@
    }

    /// The table for the y coordinate.
    pub closed spec fn table_y(&self) -> Seq<usize> {
        self.perm_y@
    }

    /// The table for the z coordinate.
    pub closed spec fn table_z(&self) -> Seq<usize> {
        self.perm_z@
    }

    /// Each table is a permutation of `0..POINT_COUNT`.
    pub open spec fn wf(&self) -> bool {
        &&& is_permutation(self.table_x())
        &&& is_permutation(self.table_y())
        &&& is_permutation(self.table_z())
    }

    /// Three tables, each a random permutation of `0..POINT_COUNT`.
    pub fn new() -> (r: PerlinPermutations)
        ensures
            r.wf(),
    {
        let perm_x = random_permutation();
        let perm_y = random_permutation();
        let perm_z = random_permutation();
        PerlinPermutations { perm_x, perm_y, perm_z }
    }

    /// The gradient index of lattice corner `(i, j, k)`: the exclusive or of
    /// the x table at the slot of `i`, the y table at the slot of `j` and the
    /// z table at the slot of `k`. It is always a valid gradient index.
    pub fn corner_index(&self, i: i32, j: i32, k: i32) -> (r: usize)
        requires
            self.wf(),
        ensures
            r == self.table_x()[slot(i)] ^ self.table_y()[slot(j)] ^ self.table_z()[slot(k)],
            r < POINT_COUNT,
    {
        proof {
            lemma_permutation_bounded(self.perm_x@);
            lemma_permutation_bounded(self.perm_y@);
            lemma_permutation_bounded(self.perm_z@);
            lemma_slot_bounds(i);
            lemma_slot_bounds(j);
            lemma_slot_bounds(k);
        }
        let a = self.perm_x[(i & 255) as usize];
        let b = self.perm_y[(j & 255) as usize];
        let c = self.perm_z[(k & 255) as usize];
        assert(a ^ b ^ c < 256) by (bit_vector)
            requires
                a < 256,
                b < 256,
                c < 256,
        ;
        a ^ b ^ c
    }
}

proof fn lemma_slot_bounds(c: i32)
    ensures
        0 <= slot(c) < 256,
{
    assert(0 <= (c & 255i32) < 256) by (bit_vector);
}

/// A permutation of `0..POINT_COUNT` has that many entries, each below it.
pub proof fn lemma_permutation_bounded(s: Seq<usize>)
    requires
        is_permutation(s),
    ensures
        s.len() == POINT_COUNT,
        forall|i: int| 0 <= i < s.len() ==> s[i] < POINT_COUNT,
{
    let id = identity(POINT_COUNT as nat);
    vstd::seq_lib::to_multiset_len(s);
    vstd::seq_lib::to_multiset_len(id);
    let below = |x: usize| x < POINT_COUNT;
    assert forall|i: int| 0 <= i < id.len() implies #[trigger] below(id[i]) by {}
    lemma_same_multiset_keeps_all(id, s, below);
    assert forall|i: int| 0 <= i < s.len() implies s[i] < POINT_COUNT by {
        assert(below(s[i]));
    }
}

/// `0..POINT_COUNT` in a random order.
fn random_permutation() -> (r: Vec<usize>)
    ensures
        is_permutation(r@),
{
    let mut v: Vec<usize> = Vec::new();
    let mut i: usize = 0;
    while i < POINT_COUNT
        invariant
            i <= POINT_COUNT,
            v@ == identity(i as nat),
        decreases POINT_COUNT - i,
    {
        v.push(i);
        i = i + 1;
        assert(v@ =~= identity(i as nat));
    }
    shuffle(&mut v);
    v
}

} // verus!
