use in_one_weekend::{HMap, BUCKETS};

#[test]
fn hmap_insert_overwrites_and_gets() {
    let mut hm = HMap::new();
    assert!(hm.insert(10, "ten".to_string()));
    assert!(hm.insert(11, "eleven".to_string()));
    assert!(hm.insert(10, "ten_".to_string()));
    assert_eq!(hm.get(10), Some("ten_".to_string()));
    assert_eq!(hm.get(11), Some("eleven".to_string()));
    assert_eq!(hm.get(120), None);
    assert_eq!(hm.get(27), None);
}

#[test]
fn hmap_keys_sharing_a_bucket() {
    let mut hm = HMap::new();
    assert!(hm.insert(10, "a".to_string()));
    assert!(hm.insert(10 + BUCKETS, "b".to_string()));
    assert!(hm.insert(10 + 2 * BUCKETS, "c".to_string()));
    assert_eq!(hm.get(10), Some("a".to_string()));
    assert_eq!(hm.get(10 + BUCKETS), Some("b".to_string()));
    assert_eq!(hm.get(10 + 2 * BUCKETS), Some("c".to_string()));
    assert_eq!(hm.get(10 + 3 * BUCKETS), None);
}

#[test]
fn hmap_empty_and_extreme_keys() {
    let mut hm = HMap::new();
    assert_eq!(hm.get(0), None);
    assert!(hm.entries().is_empty());
    assert!(hm.insert(usize::MAX, "max".to_string()));
    assert!(hm.insert(0, String::new()));
    assert_eq!(hm.get(usize::MAX), Some("max".to_string()));
    assert_eq!(hm.get(0), Some(String::new()));
}

#[test]
fn hmap_entries_list_each_key_once() {
    let mut hm = HMap::new();
    hm.insert(10, "ten".to_string());
    hm.insert(11, "eleven".to_string());
    hm.insert(10, "ten_".to_string());
    hm.insert(27, "twenty-seven".to_string());
    let mut e = hm.entries();
    e.sort();
    assert_eq!(
        e,
        vec![
            (10, "ten_".to_string()),
            (11, "eleven".to_string()),
            (27, "twenty-seven".to_string()),
        ]
    );
}
