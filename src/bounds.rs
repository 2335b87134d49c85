use vstd::prelude::*;

verus! {

/// A corner of a box: one order key per axis.
pub type Corner = (u64, u64, u64);

/// An axis-aligned box whose corner coordinates are given by order keys: a
/// smaller key stands for a smaller coordinate. Boxes are only compared and
/// joined, never measured, so the keys say all that is needed.
#[derive(Clone, Copy, Debug, PartialEq, Eq)]
pub struct OrderedBox {
    pub lo: Corner,
    pub hi: Corner,
}

/// The smaller of two keys.
pub open spec fn min_key(a: u64, b: u64) -> u64 {
    if a <= b {
        a
    } else {
        b
    }
}

/// The larger of two keys.
pub open spec fn max_key(a: u64, b: u64) -> u64 {
    if a >= b {
        a
    } else {
        b
    }
}

/// The smallest box holding both `a` and `b`: the least lower corner and the
/// greatest upper corner, axis by axis.
pub open spec fn union_box(a: OrderedBox, b: OrderedBox) -> OrderedBox {
    OrderedBox {
        lo: (min_key(a.lo.0, b.lo.0), min_key(a.lo.1, b.lo.1), min_key(a.lo.2, b.lo.2)),
        hi: (max_key(a.hi.0, b.hi.0), max_key(a.hi.1, b.hi.1), max_key(a.hi.2, b.hi.2)),
    }
}

/// Box `outer` reaches at least as far as box `inner` on every side.
pub open spec fn box_contains(outer: OrderedBox, inner: OrderedBox) -> bool {
    &&& outer.lo.0 <= inner.lo.0 && outer.lo.1 <= inner.lo.1 && outer.lo.2 <= inner.lo.2
    &&& inner.hi.0 <= outer.hi.0 && inner.hi.1 <= outer.hi.1 && inner.hi.2 <= outer.hi.2
}

fn min_of(a: u64, b: u64) -> (r: u64)
    ensures
        r == min_key(a, b),
{
    if a <= b {
        a
    } else {
        b
    }
}

fn max_of(a: u64, b: u64) -> (r: u64)
    ensures
        r == max_key(a, b),
{
    if a >= b {
        a
    } else {
        b
    }
}

impl OrderedBox {
    /// The box with lower corner `lo` and upper corner `hi`.
    pub fn new(lo: Corner, hi: Corner) -> (r: OrderedBox)
        ensures
            r == (OrderedBox { lo, hi }),
    {
        OrderedBox { lo, hi }
    }

    /// The smallest box holding both this box and `other`.
    pub fn surrounding_box(&self, other: &OrderedBox) -> (r: OrderedBox)
        ensures
            r == union_box(*self, *other),
    {
        OrderedBox {
            lo: (min_of(self.lo.0, other.lo.0), min_of(self.lo.1, other.lo.1), min_of(self.lo.2, other.lo.2)),
            hi: (max_of(self.hi.0, other.hi.0), max_of(self.hi.1, other.hi.1), max_of(self.hi.2, other.hi.2)),
        }
    }

    /// Orders two boxes by their lower corner on `axis` (every axis past the
    /// second counts as the third): `Less` when the first is strictly lower,
    /// else `Greater`. Ties are not told apart.
    pub fn compare_axis(b1: &OrderedBox, b2: &OrderedBox, axis: usize) -> (r: std::cmp::Ordering)
        ensures
            r == (if corner_on(b1.lo, axis) < corner_on(b2.lo, axis) {
                std::cmp::Ordering::Less
            } else {
                std::cmp::Ordering::Greater
            }),
    {
        let less = if axis == 0 {
            b1.lo.0 < b2.lo.0
        } else if axis == 1 {
            b1.lo.1 < b2.lo.1
        } else {
            b1.lo.2 < b2.lo.2
        };
        if less {
            std::cmp::Ordering::Less
        } else {
            std::cmp::Ordering::Greater
        }
    }
}

/// Joining boxes does not depend on their order.
pub proof fn lemma_surrounding_box_commutes(a: OrderedBox, b: OrderedBox)
    ensures
        union_box(a, b) == union_box(b, a),
{
}

/// Joining boxes does not depend on how they are grouped.
pub proof fn lemma_surrounding_box_associates(a: OrderedBox, b: OrderedBox, c: OrderedBox)
    ensures
        union_box(union_box(a, b), c) == union_box(a, union_box(b, c)),
{
}

/// The joined box holds each of the two boxes joined.
pub proof fn lemma_surrounding_box_contains(a: OrderedBox, b: OrderedBox)
    ensures
        box_contains(union_box(a, b), a),
        box_contains(union_box(a, b), b),
{
}

/// The key of corner `c` on `axis`; every axis past the second counts as the third.
pub open spec fn corner_on(c: Corner, axis: usize) -> u64 {
    if axis == 0 {
        c.0
    } else if axis == 1 {
        c.1
    } else {
        c.2
    }
}

/// The join of the boxes of `s`, taken from left to right (for a non-empty `s`).
pub open spec fn join_all(s: Seq<OrderedBox>) -> OrderedBox
    decreases s.len(),
{
    if s.len() <= 1 {
        s[0]
    } else {
        union_box(join_all(s.drop_last()), s.last())
    }
}

/// No entry of `s` is `None`.
pub open spec fn all_bounded(s: Seq<Option<OrderedBox>>) -> bool {
    forall|i: int| 0 <= i < s.len() ==> (#[trigger] s[i]) is Some
}

/// The boxes held by the entries of `s`.
pub open spec fn unwrap_all(s: Seq<Option<OrderedBox>>) -> Seq<OrderedBox> {
    s.map_values(|b: Option<OrderedBox>| b->Some_0)
}

/// The box around all of `boxes`, joined from left to right: `None` when
/// there are no boxes, or when one of them is `None` (an unbounded object).
pub fn bounding_box_of(boxes: &Vec<Option<OrderedBox>>) -> (r: Option<OrderedBox>)
    ensures
        r is None <==> (boxes@.len() == 0 || !all_bounded(boxes@)),
        r is Some ==> r->Some_0 == join_all(unwrap_all(boxes@)),
{
    if boxes.len() == 0 {
        return None;
    }
    let mut bb = match boxes[0] {
        Some(b) => b,
        None => {
            assert(boxes@[0] is None);
            return None;
        },
    };
    assert(unwrap_all(boxes@.subrange(0, 1)) =~= seq![bb]);
    let mut i: usize = 1;
    while i < boxes.len()
        invariant
            1 <= i <= boxes@.len(),
            all_bounded(boxes@.subrange(0, i as int)),
            bb == join_all(unwrap_all(boxes@.subrange(0, i as int))),
        decreases boxes@.len() - i,
    {
        match boxes[i] {
            Some(b) => {
                proof {
                    let pre = boxes@.subrange(0, i as int);
                    let next = boxes@.subrange(0, i + 1);
                    assert(unwrap_all(next).drop_last() =~= unwrap_all(pre));
                    assert(unwrap_all(next).last() == b);
                    assert forall|k: int| 0 <= k < next.len() implies (#[trigger] next[k]) is Some by {
                        if k < i {
                            assert(next[k] == pre[k]);
                        }
                    }
                }
                bb = bb.surrounding_box(&b);
            },
            None => {
                assert(boxes@[i as int] is None);
                return None;
            },
        }
        i = i + 1;
    }
    assert(boxes@.subrange(0, i as int) =~= boxes@);
    Some(bb)
}

/// The join of a non-empty sequence of boxes holds each of them.
pub proof fn lemma_join_all_contains(s: Seq<OrderedBox>)
    requires
        s.len() > 0,
    ensures
        forall|i: int| 0 <= i < s.len() ==> box_contains(join_all(s), #[trigger] s[i]),
    decreases s.len(),
{
    if s.len() > 1 {
        let init = s.drop_last();
        lemma_join_all_contains(init);
        lemma_surrounding_box_contains(join_all(init), s.last());
        assert forall|i: int| 0 <= i < s.len() implies box_contains(join_all(s), #[trigger] s[i]) by {
            if i < s.len() - 1 {
                assert(s[i] == init[i]);
            }
        }
    }
}

} // verus!
