use std::cmp::Ordering;

use in_one_weekend::bounds::{bounding_box_of, OrderedBox};
use in_one_weekend::bvh::{axis_key, box_of, sort_on_axis, BVHNode, BvhChild, BvhItem};

fn item(object: usize, keys: (u64, u64, u64)) -> BvhItem {
    let hi = (keys.0 + 1, keys.1 + 2, keys.2 + 3);
    BvhItem { object, bbox: OrderedBox::new(keys, hi) }
}

fn contains(outer: &OrderedBox, inner: &OrderedBox) -> bool {
    outer.lo.0 <= inner.lo.0
        && outer.lo.1 <= inner.lo.1
        && outer.lo.2 <= inner.lo.2
        && inner.hi.0 <= outer.hi.0
        && inner.hi.1 <= outer.hi.1
        && inner.hi.2 <= outer.hi.2
}

// An integer with the same order as `x` among numbers that are not NaN.
fn key(x: f64) -> u64 {
    let bits = x.to_bits();
    if bits >> 63 == 1 {
        !bits
    } else {
        bits | (1 << 63)
    }
}

fn key_box(p1: (f64, f64, f64), p2: (f64, f64, f64)) -> OrderedBox {
    OrderedBox::new((key(p1.0), key(p1.1), key(p1.2)), (key(p2.0), key(p2.1), key(p2.2)))
}

fn child_items(c: &BvhChild, out: &mut Vec<BvhItem>) {
    match c {
        BvhChild::Object(it) => out.push(*it),
        BvhChild::Node(n) => node_items(n, out),
    }
}

fn node_items(n: &BVHNode, out: &mut Vec<BvhItem>) {
    child_items(&n.child0, out);
    if let Some(c) = &n.child1 {
        child_items(c, out);
    }
}

fn check_child(c: &BvhChild) {
    if let BvhChild::Node(n) = c {
        check_node(n);
    }
}

// Checks the layout of every node and returns the depth of the tree.
fn check_node(n: &BVHNode) -> usize {
    assert!(n.axis < 3);
    let mut left = vec![];
    child_items(&n.child0, &mut left);
    let mut right = vec![];
    if let Some(c) = &n.child1 {
        child_items(c, &mut right);
    }
    let count = left.len() + right.len();
    let second = match &n.child1 {
        Some(c) => box_of(c),
        None => box_of(&n.child0),
    };
    assert_eq!(n.bbox, box_of(&n.child0).surrounding_box(&second));
    for it in left.iter().chain(right.iter()) {
        assert!(contains(&n.bbox, &it.bbox));
    }
    match &n.child1 {
        None => assert!(matches!(n.child0, BvhChild::Object(_))),
        Some(c1) => {
            if count == 2 {
                assert!(matches!(n.child0, BvhChild::Object(_)));
                assert!(matches!(c1, BvhChild::Object(_)));
            } else {
                assert!(count > 2);
                assert!(matches!(n.child0, BvhChild::Node(_)));
                assert!(matches!(c1, BvhChild::Node(_)));
                assert_eq!(left.len(), count / 2);
            }
        }
    }
    for a in &left {
        for b in &right {
            assert!(axis_key(a, n.axis) <= axis_key(b, n.axis));
        }
    }
    check_child(&n.child0);
    if let Some(c) = &n.child1 {
        check_child(c);
    }
    let d0 = match &n.child0 {
        BvhChild::Node(m) => check_node(m),
        BvhChild::Object(_) => 0,
    };
    let d1 = match &n.child1 {
        Some(BvhChild::Node(m)) => check_node(m),
        _ => 0,
    };
    1 + d0.max(d1)
}

#[test]
fn single_object_is_the_sole_child() {
    let n = BVHNode::new(vec![item(7, (1, 2, 3))]);
    assert!(n.axis < 3);
    assert!(matches!(n.child0, BvhChild::Object(it) if it.object == 7));
    assert!(n.child1.is_none());
}

#[test]
fn two_objects_come_in_key_order() {
    for _ in 0..20 {
        let n = BVHNode::new(vec![item(0, (5, 5, 5)), item(1, (1, 1, 1))]);
        match (&n.child0, &n.child1) {
            (BvhChild::Object(a), Some(BvhChild::Object(b))) => {
                assert_eq!(a.object, 1);
                assert_eq!(b.object, 0);
            }
            _ => panic!("two objects must be two object children"),
        }
    }
}

#[test]
fn many_objects_each_appear_once_and_split_in_order() {
    let mut objs = vec![];
    let mut seed: u64 = 12345;
    for i in 0..257 {
        seed = seed.wrapping_mul(6364136223846793005).wrapping_add(1442695040888963407);
        objs.push(item(i, (seed >> 40, (seed >> 20) & 0xffff, seed & 0xff)));
    }
    let n = BVHNode::new(objs.clone());
    let depth = check_node(&n);
    assert!(depth <= 10);
    let mut got = vec![];
    node_items(&n, &mut got);
    let mut got_ids: Vec<usize> = got.iter().map(|it| it.object).collect();
    got_ids.sort();
    let ids: Vec<usize> = (0..257).collect();
    assert_eq!(got_ids, ids);
}

#[test]
fn three_objects_make_two_nodes() {
    let n = BVHNode::new(vec![item(0, (0, 0, 0)), item(1, (0, 0, 0)), item(2, (0, 0, 0))]);
    check_node(&n);
    let mut got = vec![];
    node_items(&n, &mut got);
    assert_eq!(got.len(), 3);
}

#[test]
fn sort_on_axis_orders_by_that_key() {
    let mut v = vec![item(0, (3, 1, 9)), item(1, (1, 2, 8)), item(2, (2, 0, 7)), item(3, (2, 5, 7))];
    sort_on_axis(&mut v, 0);
    let keys: Vec<u64> = v.iter().map(|it| it.bbox.lo.0).collect();
    assert_eq!(keys, vec![1, 2, 2, 3]);
    sort_on_axis(&mut v, 1);
    let ids: Vec<usize> = v.iter().map(|it| it.object).collect();
    assert_eq!(ids, vec![2, 0, 1, 3]);
    sort_on_axis(&mut v, 2);
    assert_eq!(v[3].object, 0);
    assert_eq!(axis_key(&v[0], 2), 7);
    assert_eq!(axis_key(&v[0], 5), 7);
}

#[test]
fn surrounding_box_test() {
    let b1 = key_box((0.0, 0.0, 0.0), (1.0, 1.0, 1.0));
    let b2 = key_box((2.0, 2.0, 2.0), (3.0, 3.0, 3.0));
    assert_eq!(b1.surrounding_box(&b2), key_box((0.0, 0.0, 0.0), (3.0, 3.0, 3.0)));
    assert_eq!(b1.surrounding_box(&b2), b2.surrounding_box(&b1));
}

#[test]
fn surrounding_box_of_overlapping_and_negative_boxes() {
    let a = key_box((-5.0, 1.0, -0.5), (2.0, 4.0, 0.5));
    let b = key_box((-1.0, -3.0, 0.0), (6.0, 2.0, 9.0));
    let u = key_box((-5.0, -3.0, -0.5), (6.0, 4.0, 9.0));
    assert_eq!(a.surrounding_box(&b), u);
    assert_eq!(b.surrounding_box(&a), u);
    assert_eq!(a.surrounding_box(&a), a);
    let c = key_box((10.0, 10.0, 10.0), (11.0, 11.0, 11.0));
    assert_eq!(a.surrounding_box(&b).surrounding_box(&c), a.surrounding_box(&b.surrounding_box(&c)));
}

#[test]
fn compare_axis_orders_by_lower_corner() {
    let a = key_box((0.0, 5.0, -1.0), (1.0, 6.0, 0.0));
    let b = key_box((1.0, 2.0, -1.0), (2.0, 3.0, 0.0));
    assert_eq!(OrderedBox::compare_axis(&a, &b, 0), Ordering::Less);
    assert_eq!(OrderedBox::compare_axis(&b, &a, 0), Ordering::Greater);
    assert_eq!(OrderedBox::compare_axis(&a, &b, 1), Ordering::Greater);
    assert_eq!(OrderedBox::compare_axis(&b, &a, 1), Ordering::Less);
    assert_eq!(OrderedBox::compare_axis(&a, &b, 2), Ordering::Greater);
    assert_eq!(OrderedBox::compare_axis(&a, &b, 7), Ordering::Greater);
}

#[test]
fn bounding_box_of_a_list() {
    assert_eq!(bounding_box_of(&vec![]), None);
    let a = key_box((0.0, 0.0, 0.0), (1.0, 1.0, 1.0));
    let b = key_box((2.0, -2.0, 2.0), (3.0, 3.0, 3.0));
    let c = key_box((-1.0, 0.5, 0.5), (0.5, 0.75, 9.0));
    assert_eq!(bounding_box_of(&vec![Some(a)]), Some(a));
    assert_eq!(
        bounding_box_of(&vec![Some(a), Some(b), Some(c)]),
        Some(key_box((-1.0, -2.0, 0.0), (3.0, 3.0, 9.0)))
    );
    assert_eq!(bounding_box_of(&vec![Some(a), None, Some(c)]), None);
    assert_eq!(bounding_box_of(&vec![None]), None);
    assert_eq!(bounding_box_of(&vec![Some(a), Some(b), None]), None);
}
