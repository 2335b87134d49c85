use vstd::prelude::*;

use crate::bounds::{box_contains, corner_on, lemma_surrounding_box_contains, union_box, OrderedBox};
use crate::permutation::{lemma_same_multiset_keeps_all, swap_entries};

verus! {

broadcast use {
    vstd::seq_lib::lemma_multiset_commutative,
    vstd::seq_lib::to_multiset_len,
    vstd::multiset::group_multiset_axioms,
};

/// What the hierarchy needs to know of one scene object: its index in the
/// scene and its bounding box.
#[derive(Clone, Copy, Debug, PartialEq, Eq)]
pub struct BvhItem {
    pub object: usize,
    pub bbox: OrderedBox,
}

/// The sort key of `item` on `axis`: the lower corner of its box there.
pub open spec fn key_on(item: BvhItem, axis: usize) -> u64 {
    corner_on(item.bbox.lo, axis)
}

/// The items of `s` come in ascending order of their key on `axis`.
pub open spec fn sorted_on(s: Seq<BvhItem>, axis: usize) -> bool {
    forall|i: int, j: int| 0 <= i <= j < s.len() ==> key_on(s[i], axis) <= key_on(s[j], axis)
}

/// The key of `item` on `axis`.
pub fn axis_key(item: &BvhItem, axis: usize) -> (r: u64)
    ensures
        r == key_on(*item, axis),
{
    if axis == 0 {
        item.bbox.lo.0
    } else if axis == 1 {
        item.bbox.lo.1
    } else {
        item.bbox.lo.2
    }
}

/// Puts the items of `v` in ascending order of their key on `axis`.
pub fn sort_on_axis(v: &mut Vec<BvhItem>, axis: usize)
    ensures
        sorted_on(final(v)@, axis),
        final(v)@.to_multiset() == old(v)@.to_multiset(),
        final(v)@.len() == old(v)@.len(),
{
    let n = v.len();
    if n <= 1 {
        return;
    }
    let ghost start = v@;
    let mut i: usize = 1;
    while i < n
        invariant
            n == v@.len(),
            1 <= i <= n,
            sorted_on(v@.subrange(0, i as int), axis),
            v@.to_multiset() == start.to_multiset(),
        decreases n - i,
    {
        let mut j: usize = i;
        proof {
            let s = v@.subrange(0, i as int);
            assert forall|a: int, b: int| 0 <= a <= b <= i && a != j && b != j implies key_on(
                #[trigger] v@[a],
                axis,
            ) <= key_on(#[trigger] v@[b], axis) by {
                assert(s[a] == v@[a] && s[b] == v@[b]);
            }
        }
        while j > 0
            invariant
                n == v@.len(),
                j <= i < n,
                v@.to_multiset() == start.to_multiset(),
                forall|a: int, b: int|
                    0 <= a <= b <= i && a != j && b != j ==> key_on(v@[a], axis) <= key_on(
                        v@[b],
                        axis,
                    ),
                forall|b: int| j < b <= i ==> key_on(v@[j as int], axis) <= key_on(v@[b], axis),
            ensures
                n == v@.len(),
                j <= i < n,
                v@.to_multiset() == start.to_multiset(),
                forall|a: int, b: int|
                    0 <= a <= b <= i && a != j && b != j ==> key_on(v@[a], axis) <= key_on(
                        v@[b],
                        axis,
                    ),
                forall|b: int| j < b <= i ==> key_on(v@[j as int], axis) <= key_on(v@[b], axis),
                j > 0 ==> key_on(v@[j - 1], axis) <= key_on(v@[j as int], axis),
            decreases j,
        {
            if axis_key(&v[j - 1], axis) <= axis_key(&v[j], axis) {
                break;
            }
            swap_entries(v.as_mut_slice(), j - 1, j);
            j = j - 1;
        }
        proof {
            let s = v@.subrange(0, i + 1);
            assert forall|a: int, b: int| 0 <= a <= b < i + 1 implies key_on(#[trigger] s[a], axis)
                <= key_on(#[trigger] s[b], axis) by {
                if a == j && b != j {
                } else if b == j && a < j {
                    assert(key_on(v@[a], axis) <= key_on(v@[j - 1], axis));
                }
            }
        }
        i = i + 1;
    }
    assert(v@.subrange(0, n as int) =~= v@);
}

/// A child of a hierarchy node: a single scene object, or a further node.
pub enum BvhChild {
    Object(BvhItem),
    Node(Box<BVHNode>),
}

/// A node of the bounding volume hierarchy. Its objects were split on `axis`:
/// those under `child0` have keys on that axis no greater than those under
/// `child1`. A node of one object has no `child1`. Its box is the join of its
/// children's boxes.
pub struct BVHNode {
    pub axis: usize,
    pub bbox: OrderedBox,
    pub child0: BvhChild,
    pub child1: Option<BvhChild>,
}

impl BvhChild {
    /// The objects under this child, left to right.
    pub open spec fn items(self) -> Seq<BvhItem>
        decreases self,
    {
        match self {
            BvhChild::Object(it) => seq![it],
            BvhChild::Node(n) => n.child0.items() + match n.child1 {
                Some(c) => c.items(),
                None => Seq::empty(),
            },
        }
    }

    /// Every node under this child is laid out as `split_ok` says.
    pub open spec fn well_formed(self) -> bool
        decreases self,
    {
        match self {
            BvhChild::Object(_) => true,
            BvhChild::Node(n) => {
                &&& split_ok(*n)
                &&& n.child0.well_formed()
                &&& match n.child1 {
                    Some(c) => c.well_formed(),
                    None => true,
                }
            },
        }
    }
}

/// The box of a child: the object's own box, or the node's.
pub open spec fn child_box(c: BvhChild) -> OrderedBox {
    match c {
        BvhChild::Object(it) => it.bbox,
        BvhChild::Node(n) => n.bbox,
    }
}

/// The box of `child1`, or of `child0` where there is no `child1`.
pub open spec fn second_box(n: BVHNode) -> OrderedBox {
    match n.child1 {
        Some(c) => child_box(c),
        None => child_box(n.child0),
    }
}

/// The box of `c`.
pub fn box_of(c: &BvhChild) -> (r: OrderedBox)
    ensures
        r == child_box(*c),
{
    match c {
        BvhChild::Object(it) => it.bbox,
        BvhChild::Node(n) => n.bbox,
    }
}

/// The objects under `child1`, if any.
pub open spec fn second_items(c: Option<BvhChild>) -> Seq<BvhItem> {
    match c {
        Some(c) => c.items(),
        None => Seq::empty(),
    }
}

/// How one node stands over its children: its axis is one of the three; a
/// node of one object holds it alone; a node of two objects holds both as
/// objects; a larger node holds two nodes, the first over the lower half of
/// its objects (rounded down); and no object under `child0` has a key on the
/// node's axis above that of any object under `child1`. Its box is the join
/// of the first child's box and the second's (the first's again for a node of
/// one object).
pub open spec fn split_ok(n: BVHNode) -> bool {
    let left = n.child0.items();
    let right = second_items(n.child1);
    let count = left.len() + right.len();
    &&& n.axis < 3
    &&& n.bbox == union_box(child_box(n.child0), second_box(n))
    &&& match n.child1 {
        None => n.child0 is Object,
        Some(c1) => {
            ||| (count == 2 && n.child0 is Object && c1 is Object)
            ||| (count > 2 && n.child0 is Node && c1 is Node && left.len() == count / 2)
        },
    }
    &&& forall|i: int, j: int|
        0 <= i < left.len() && 0 <= j < right.len() ==> key_on(#[trigger] left[i], n.axis) <= key_on(
            #[trigger] right[j],
            n.axis,
        )
}

impl BVHNode {
    /// The objects under this node, left to right.
    pub open spec fn items(self) -> Seq<BvhItem> {
        self.child0.items() + second_items(self.child1)
    }

    /// This node and every node below it are laid out as `split_ok` says.
    pub open spec fn well_formed(self) -> bool {
        &&& split_ok(self)
        &&& self.child0.well_formed()
        &&& match self.child1 {
            Some(c) => c.well_formed(),
            None => true,
        }
    }

    /// Builds the hierarchy over `objs`. At each node an axis is drawn at
    /// random; two objects are put in order on it, and more are sorted on it
    /// and split at the middle, each half getting a node of its own.
    pub fn new(objs: Vec<BvhItem>) -> (r: BVHNode)
        requires
            objs@.len() >= 1,
        ensures
            r.well_formed(),
            r.items().to_multiset() == objs@.to_multiset(),
        decreases objs@.len(),
    {
        let mut objs = objs;
        let axis = rand::random::<usize>() % 3;
        let n = objs.len();
        if n == 1 {
            let ghost one = objs@;
            let a = objs.pop().unwrap();
            let bbox = a.bbox.surrounding_box(&a.bbox);
            let r = BVHNode { axis, bbox, child0: BvhChild::Object(a), child1: None };
            proof {
                assert(r.items() =~= one);
            }
            return r;
        }
        if n == 2 {
            let ghost both = objs@;
            let a = objs.pop().unwrap();
            let b = objs.pop().unwrap();
            proof {
                assert(both =~= seq![b, a]);
                assert(seq![b] + seq![a] =~= both);
                assert((seq![a] + seq![b]).to_multiset() =~= (seq![b] + seq![a]).to_multiset());
            }
            if let std::cmp::Ordering::Less = OrderedBox::compare_axis(&a.bbox, &b.bbox, axis) {
                let bbox = a.bbox.surrounding_box(&b.bbox);
                let r = BVHNode { axis, bbox, child0: BvhChild::Object(a), child1: Some(BvhChild::Object(b)) };
                return r;
            } else {
                let bbox = b.bbox.surrounding_box(&a.bbox);
                let r = BVHNode { axis, bbox, child0: BvhChild::Object(b), child1: Some(BvhChild::Object(a)) };
                return r;
            }
        }
        sort_on_axis(&mut objs, axis);
        let ghost sorted = objs@;
        let mid = n / 2;
        let upper = objs.split_off(mid);
        let ghost lo = objs@;
        let ghost hi = upper@;
        proof {
            assert(sorted =~= lo + hi);
        }
        let left = BVHNode::new(objs);
        let right = BVHNode::new(upper);
        let bbox = left.bbox.surrounding_box(&right.bbox);
        let r = BVHNode {
            axis,
            bbox,
            child0: BvhChild::Node(Box::new(left)),
            child1: Some(BvhChild::Node(Box::new(right))),
        };
        proof {
            let m = key_on(sorted[mid as int], axis);
            let at_most = |x: BvhItem| key_on(x, axis) <= m;
            let at_least = |x: BvhItem| key_on(x, axis) >= m;
            assert forall|k: int| 0 <= k < lo.len() implies #[trigger] at_most(lo[k]) by {
                assert(lo[k] == sorted[k]);
            }
            assert forall|k: int| 0 <= k < hi.len() implies #[trigger] at_least(hi[k]) by {
                assert(hi[k] == sorted[mid + k]);
            }
            lemma_same_multiset_keeps_all(lo, left.items(), at_most);
            lemma_same_multiset_keeps_all(hi, right.items(), at_least);
            let li = r.child0.items();
            let ri = second_items(r.child1);
            assert(li == left.items());
            assert(ri == right.items());
            assert forall|i: int, j: int| 0 <= i < li.len() && 0 <= j < ri.len() implies key_on(
                #[trigger] li[i],
                axis,
            ) <= key_on(#[trigger] ri[j], axis) by {
                assert(at_most(li[i]));
                assert(at_least(ri[j]));
            }
            assert(r.items().to_multiset() =~= sorted.to_multiset());
            vstd::seq_lib::to_multiset_len(li);
            vstd::seq_lib::to_multiset_len(lo);
            vstd::seq_lib::to_multiset_len(ri);
            vstd::seq_lib::to_multiset_len(hi);
            assert(li.len() == lo.len());
            assert(ri.len() == hi.len());
            assert(r.child0.well_formed() == left.well_formed());
            assert(split_ok(r));
        }
        r
    }
}

/// Every object under a well-formed child lies within the child's box.
pub proof fn lemma_child_box_contains_items(c: BvhChild)
    requires
        c.well_formed(),
    ensures
        forall|i: int| 0 <= i < c.items().len() ==> box_contains(child_box(c), #[trigger] c.items()[i].bbox),
    decreases c,
{
    match c {
        BvhChild::Object(it) => {
            assert(c.items() == seq![it]);
        },
        BvhChild::Node(n) => {
            assert(c.items() == n.items());
            assert(n.well_formed());
            lemma_node_box_contains_items(*n);
        },
    }
}

/// Every object under a well-formed node lies within the node's box.
pub proof fn lemma_node_box_contains_items(n: BVHNode)
    requires
        n.well_formed(),
    ensures
        forall|i: int| 0 <= i < n.items().len() ==> box_contains(n.bbox, #[trigger] n.items()[i].bbox),
    decreases n,
{
    let left = n.child0.items();
    let right = second_items(n.child1);
    lemma_child_box_contains_items(n.child0);
    lemma_surrounding_box_contains(child_box(n.child0), second_box(n));
    match n.child1 {
        Some(c1) => {
            lemma_child_box_contains_items(c1);
        },
        None => {},
    }
    assert forall|i: int| 0 <= i < n.items().len() implies box_contains(n.bbox, #[trigger] n.items()[i].bbox) by {
        if i < left.len() {
            assert(n.items()[i] == left[i]);
        } else {
            assert(n.items()[i] == right[i - left.len()]);
        }
    }
}

} // verus!
