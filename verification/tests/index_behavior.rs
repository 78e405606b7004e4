use spanning_rope::Range;
use spanning_rope::SpanningRope;
use spanning_rope::StatsReporter;
use spanning_rope::StorageError;

#[test]
fn insert_get_round_trip() {
    let mut rope: SpanningRope<u64, u64> = SpanningRope::new(None, None);
    assert_eq!(rope.insert(7, 70), Ok(()));
    assert_eq!(rope.get(7), Ok(Some(70)));
    assert_eq!(rope.get(8), Ok(None));
    assert_eq!(rope.insert(u64::MAX, 1), Ok(()));
    assert_eq!(rope.insert(0, 2), Ok(()));
    assert_eq!(rope.get(u64::MAX), Ok(Some(1)));
    assert_eq!(rope.get(0), Ok(Some(2)));
}

#[test]
fn local_storage_basics() {
    let mut store: spanning_rope::LocalStorage<u64, u64> = spanning_rope::LocalStorage::new();
    assert_eq!(store.count(), 0);
    store.insert(4, 40);
    store.insert(2, 20);
    store.insert(4, 44);
    assert_eq!(store.count(), 2);
    assert_eq!(store.get(&4), Some(44));
    assert_eq!(store.get(&2), Some(20));
    assert_eq!(store.get(&3), None);
}

#[test]
fn overwrite_last_write_wins() {
    let mut rope: SpanningRope<u64, u64> = SpanningRope::new(None, None);
    assert_eq!(rope.insert(5, 1), Ok(()));
    assert_eq!(rope.insert(5, 2), Ok(()));
    assert_eq!(rope.get(5), Ok(Some(2)));
    assert_eq!(rope.key_count(), 1);
}

#[test]
fn count_distinct_keys() {
    let mut rope: SpanningRope<u32, u32> = SpanningRope::new(None, None);
    let keys = [9u32, 3, 7, 3, 1, 9, 5, 1, 2];
    for (i, k) in keys.iter().enumerate() {
        assert_eq!(rope.insert(*k, i as u32), Ok(()));
    }
    // Distinct keys inserted: 1, 2, 3, 5, 7, 9.
    assert_eq!(rope.key_count(), 6);
}

#[test]
fn out_of_range_lookup() {
    let mut rope: SpanningRope<u64, u64> = SpanningRope::new(Some(5), Some(10));
    assert_eq!(rope.get(20), Err(StorageError::OutOfRange));
    assert_eq!(rope.insert(20, 1), Err(StorageError::OutOfRange));
    assert_eq!(rope.insert(7, 1), Ok(()));
    assert_eq!(rope.get(7), Ok(Some(1)));
    assert_eq!(rope.get(4), Err(StorageError::OutOfRange));
}

#[test]
fn string_keys_scenario() {
    let mut rope: SpanningRope<Vec<u8>, Vec<u8>> = SpanningRope::new(None, None);
    let k = "abc".as_bytes().to_vec();
    let kprime = "abd".as_bytes().to_vec();
    let v = "123".as_bytes().to_vec();
    let vprime = "124".as_bytes().to_vec();
    assert_eq!(rope.insert(k.clone(), v.clone()), Ok(()));
    assert_eq!(rope.insert(kprime.clone(), vprime.clone()), Ok(()));
    assert_eq!(rope.get(k), Ok(Some(v)));
    assert_eq!(rope.get(kprime), Ok(Some(vprime)));
    assert_eq!(rope.key_count(), 2);
    assert_eq!(rope.internal_segment_count(), 0);
}

#[test]
fn fresh_node_has_no_segments() {
    let rope: SpanningRope<u64, u64> = SpanningRope::new(None, None);
    assert_eq!(rope.internal_segment_count(), 0);
    assert_eq!(rope.key_count(), 0);
}

#[test]
fn split_triggers_on_next_insert_past_threshold() {
    let mut rope: SpanningRope<u32, u32> = SpanningRope::new(None, None);
    for k in 0u32..11 {
        assert_eq!(rope.insert(k, k + 100), Ok(()));
    }
    // The split decision is evaluated before an insert, so the leaf holds
    // eleven entries transiently and has not split yet.
    assert_eq!(rope.key_count(), 11);
    assert_eq!(rope.internal_segment_count(), 0);
    // The next insert finds the node over the threshold and splits it into
    // exactly two segments; the split loses no entries.
    assert_eq!(rope.insert(11, 111), Ok(()));
    assert_eq!(rope.internal_segment_count(), 2);
    assert_eq!(rope.key_count(), 12);
    for k in 0u32..12 {
        assert_eq!(rope.get(k), Ok(Some(k + 100)));
    }
}

#[test]
fn boundary_key_stays_reachable() {
    let mut rope: SpanningRope<u32, u32> = SpanningRope::new(None, None);
    for k in 0u32..12 {
        assert_eq!(rope.insert(k, k), Ok(()));
    }
    assert_eq!(rope.internal_segment_count(), 2);
    // Rank 5 of the sorted keys 0..=10 was the boundary; it must still
    // resolve, and overwriting it must not add an entry.
    assert_eq!(rope.get(5), Ok(Some(5)));
    assert_eq!(rope.insert(5, 500), Ok(()));
    assert_eq!(rope.get(5), Ok(Some(500)));
    assert_eq!(rope.key_count(), 12);
}

#[test]
fn deep_splits_keep_every_entry() {
    let mut rope: SpanningRope<u64, u64> = SpanningRope::new(None, None);
    for k in 0u64..40 {
        let key = (k * 7919) % 101;
        assert_eq!(rope.insert(key, key * 2), Ok(()));
    }
    assert_eq!(rope.key_count(), 40);
    assert_eq!(rope.internal_segment_count(), 2);
    for k in 0u64..40 {
        let key = (k * 7919) % 101;
        assert_eq!(rope.get(key), Ok(Some(key * 2)));
    }
}

#[test]
fn byte_string_keys_split_in_order() {
    let mut rope: SpanningRope<Vec<u8>, u32> = SpanningRope::new(None, None);
    let words = [
        "pear", "apple", "quince", "fig", "plum", "cherry", "date", "lime", "mango", "kiwi",
        "grape", "banana", "olive", "peach",
    ];
    for (i, w) in words.iter().enumerate() {
        assert_eq!(rope.insert(w.as_bytes().to_vec(), i as u32), Ok(()));
    }
    assert_eq!(rope.key_count(), words.len());
    assert_eq!(rope.internal_segment_count(), 2);
    for (i, w) in words.iter().enumerate() {
        assert_eq!(rope.get(w.as_bytes().to_vec()), Ok(Some(i as u32)));
    }
}

#[test]
fn range_contains_four_cases() {
    let unbounded: Range<u64> = Range { start: None, end: None };
    assert!(unbounded.contains(0));
    assert!(unbounded.contains(u64::MAX));

    let lower_only: Range<u64> = Range { start: Some(5), end: None };
    assert!(lower_only.contains(5));
    assert!(lower_only.contains(100));
    assert!(!lower_only.contains(4));

    let upper_only: Range<u64> = Range { start: None, end: Some(10) };
    assert!(upper_only.contains(10));
    assert!(upper_only.contains(0));
    assert!(!upper_only.contains(11));

    let both: Range<u64> = Range { start: Some(5), end: Some(10) };
    assert!(both.contains(5));
    assert!(both.contains(10));
    assert!(!both.contains(4));
    assert!(!both.contains(11));
}

#[test]
fn owns_delegates_to_range() {
    let rope: SpanningRope<u64, u64> = SpanningRope::new(Some(3), Some(9));
    assert!(rope.owns(3));
    assert!(rope.owns(9));
    assert!(!rope.owns(2));
    assert!(!rope.owns(10));
}

#[test]
fn bounded_root_rejects_only_outsiders() {
    let mut rope: SpanningRope<u32, u32> = SpanningRope::new(Some(0), Some(100));
    for k in 0u32..20 {
        assert_eq!(rope.insert(k, k), Ok(()));
    }
    assert_eq!(rope.key_count(), 20);
    assert_eq!(rope.insert(101, 1), Err(StorageError::OutOfRange));
    assert_eq!(rope.get(101), Err(StorageError::OutOfRange));
    assert_eq!(rope.key_count(), 20);
    // The children's ranges still cover the whole configured range: both
    // bounds stay insertable after the split.
    assert!(rope.internal_segment_count() > 0);
    assert_eq!(rope.insert(100, 7), Ok(()));
    assert_eq!(rope.insert(0, 8), Ok(()));
    assert_eq!(rope.get(100), Ok(Some(7)));
    assert_eq!(rope.get(50), Ok(None));
}

#[test]
fn lexicographic_prefix_orders_before_extension() {
    let mut rope: SpanningRope<Vec<u8>, u32> = SpanningRope::new(None, Some("ab".as_bytes().to_vec()));
    assert_eq!(rope.insert("ab".as_bytes().to_vec(), 1), Ok(()));
    assert_eq!(rope.insert("a".as_bytes().to_vec(), 2), Ok(()));
    assert_eq!(rope.insert("abc".as_bytes().to_vec(), 3), Err(StorageError::OutOfRange));
    assert_eq!(rope.get("ab".as_bytes().to_vec()), Ok(Some(1)));
    assert_eq!(rope.get("a".as_bytes().to_vec()), Ok(Some(2)));
}
