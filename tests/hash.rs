use linhash::hash::GROWTH_THRESHOLD;
use linhash::StoreError;

#[test]
fn mod_new() {
    let h = linhash::hash::Hash::new();

    assert_eq!(h.count(), 0);
    assert_eq!(h.split_pointer(), 0);
    assert_eq!(h.level(), 0);
    assert_eq!(h.num_blocks(), 1);
}

#[test]
fn get_bucket() {
    let h = linhash::hash::Hash::new();

    let (block_index, sub_bucket_index, sub_bucket) = h.get_bucket("bucket");

    assert_eq!(block_index, 0);
    assert!(sub_bucket_index > 0);
    assert!(sub_bucket.is_none());
}

#[test]
fn set() {
    let mut h = linhash::hash::Hash::new();

    assert_eq!(h.count(), 0);
    h.set("rofl", "there").unwrap();
    assert_eq!(h.count(), 1);
}

#[test]
fn get() {
    let mut h = linhash::hash::Hash::new();

    h.set("rofl", "there").unwrap();
    assert_eq!(h.get("rofl").unwrap(), "there");
}

#[test]
fn fresh_table_set_then_get() {
    let mut h = linhash::hash::Hash::new();
    assert_eq!((h.level(), h.split_pointer(), h.num_blocks()), (0, 0, 1));

    h.set("a", "1").unwrap();
    assert_eq!(h.get("a"), Some("1".to_string()));
    assert_eq!(h.count(), 1);
}

#[test]
fn overwrite_keeps_count() {
    let mut h = linhash::hash::Hash::new();

    h.set("a", "1").unwrap();
    h.set("a", "2").unwrap();
    assert_eq!(h.get("a"), Some("2".to_string()));
    assert_eq!(h.count(), 1);
    assert_eq!(h.get("b"), None);
}

#[test]
fn delete_only_key() {
    let mut h = linhash::hash::Hash::new();
    h.set("a", "1").unwrap();

    assert!(h.delete("a"));
    assert_eq!(h.get("a"), None);
    assert_eq!(h.count(), 0);
    assert!(!h.delete("a"));
    assert_eq!(h.count(), 0);
}

#[test]
fn delete_keeps_other_keys() {
    let mut h = linhash::hash::Hash::new();
    for i in 0..40 {
        h.set(&format!("k{}", i), &format!("v{}", i)).unwrap();
    }
    for i in (0..40).step_by(2) {
        assert!(h.delete(&format!("k{}", i)));
    }
    for i in 0..40 {
        let got = h.get(&format!("k{}", i));
        if i % 2 == 0 {
            assert_eq!(got, None);
        } else {
            assert_eq!(got, Some(format!("v{}", i)));
        }
    }
    assert_eq!(h.count(), 20);
}

#[test]
fn growth_splits_once_threshold_is_passed() {
    let mut h = linhash::hash::Hash::new();
    let mut n = 0;
    while h.num_blocks() == 1 {
        assert!(n < 1000);
        h.set(&format!("k{}", n), &format!("v{}", n)).unwrap();
        n += 1;
    }
    assert_eq!(h.num_blocks(), 2);
    assert_eq!(h.level(), 1);
    assert_eq!(h.split_pointer(), 0);
    assert_eq!(h.count(), n as u64);
    for i in 0..n {
        assert_eq!(h.get(&format!("k{}", i)), Some(format!("v{}", i)));
    }
    // The block that split had passed the threshold.
    assert!(n as u32 * 12 > GROWTH_THRESHOLD);
}

#[test]
fn explicit_split_keeps_every_key() {
    let mut h = linhash::hash::Hash::new();
    for i in 0..30 {
        h.set(&format!("key-{}", i), &format!("value-{}", i)).unwrap();
    }
    let count = h.count();

    h.split().unwrap();
    assert_eq!((h.level(), h.split_pointer(), h.num_blocks()), (1, 0, 2));
    h.split().unwrap();
    assert_eq!((h.level(), h.split_pointer(), h.num_blocks()), (1, 1, 3));
    h.split().unwrap();
    assert_eq!((h.level(), h.split_pointer(), h.num_blocks()), (2, 0, 4));

    assert_eq!(h.count(), count);
    for i in 0..30 {
        assert_eq!(h.get(&format!("key-{}", i)), Some(format!("value-{}", i)));
    }
    assert_eq!(h.get("key-30"), None);
}

#[test]
fn many_keys_grow_the_table() {
    let mut h = linhash::hash::Hash::new();
    for i in 0..600 {
        h.set(&format!("{}", i), &format!("{}", i * 7)).unwrap();
    }
    assert!(h.num_blocks() > 1);
    assert_eq!(h.count(), 600);
    for i in 0..600 {
        assert_eq!(h.get(&format!("{}", i)), Some(format!("{}", i * 7)));
    }
}

#[test]
fn oversized_value_is_storage_full() {
    let mut h = linhash::hash::Hash::new();

    assert_eq!(h.set("big", &"x".repeat(1100)), Err(StoreError::StorageFull));
    assert_eq!(h.count(), 0);
    assert_eq!(h.get("big"), None);
}

#[test]
fn bucket_addresses_stay_within_blocks() {
    let mut h = linhash::hash::Hash::new();
    for i in 0..5 {
        h.split().unwrap();
        for k in 0..50 {
            let (b, _, _) = h.get_bucket(&format!("probe{}-{}", i, k));
            assert!(b < h.num_blocks());
        }
    }
    assert_eq!((h.level(), h.split_pointer(), h.num_blocks()), (2, 2, 6));
}
