use gpusorted_map::{GpuMapError, GpuSortedMap, KvEntry, MAX_CAPACITY, TOMBSTONE_VALUE};

#[test]
fn creates_gpu_sorted_map() {
    let map = GpuSortedMap::new(1024);
    assert!(map.is_ok(), "GpuSortedMap::new should succeed");
}

#[test]
fn put_then_get() {
    let mut map = GpuSortedMap::new(8).unwrap();
    let entries = [
        KvEntry { key: 42, value: 7 },
        KvEntry { key: 7, value: 9 },
        KvEntry { key: 13, value: 1 },
    ];
    map.bulk_put(&entries).unwrap();

    let results = map.bulk_get(&[7, 13, 42, 99]);
    assert_eq!(results, vec![Some(9), Some(1), Some(7), None]);
}

#[test]
fn single_put_then_get() {
    let mut map = GpuSortedMap::new(4).unwrap();
    map.put(5, 11).unwrap();
    assert_eq!(map.get(5), Some(11));
}

#[test]
fn single_get_missing_key() {
    let map = GpuSortedMap::new(4).unwrap();
    assert_eq!(map.get(9), None);
}

#[test]
fn delete_existing_key() {
    let mut map = GpuSortedMap::new(8).unwrap();
    let entries = [
        KvEntry { key: 1, value: 10 },
        KvEntry { key: 2, value: 20 },
    ];
    map.bulk_put(&entries).unwrap();

    map.delete(1);
    assert_eq!(map.get(1), None);
    assert_eq!(map.get(2), Some(20));
}

#[test]
fn bulk_delete_mixed_keys() {
    let mut map = GpuSortedMap::new(8).unwrap();
    let entries = [
        KvEntry { key: 5, value: 50 },
        KvEntry { key: 7, value: 70 },
        KvEntry { key: 9, value: 90 },
    ];
    map.bulk_put(&entries).unwrap();

    map.bulk_delete(&[7, 7, 99]);
    let results = map.bulk_get(&[5, 7, 9, 99]);
    assert_eq!(results, vec![Some(50), None, Some(90), None]);
    assert_eq!(map.len(), 2);
}

#[test]
fn delete_then_put_restores_value() {
    let mut map = GpuSortedMap::new(8).unwrap();
    map.put(3, 30).unwrap();
    map.delete(3);
    assert_eq!(map.get(3), None);

    map.put(3, 31).unwrap();
    assert_eq!(map.get(3), Some(31));
}

#[test]
fn bulk_delete_empty_is_noop() {
    let mut map = GpuSortedMap::new(4).unwrap();
    map.bulk_delete(&[]);
    assert_eq!(map.get(1), None);
}

#[test]
fn new_map_is_empty() {
    let map = GpuSortedMap::new(16).unwrap();
    assert_eq!(map.capacity(), 16);
    assert_eq!(map.len(), 0);
    assert!(map.is_empty());
    assert_eq!(map.range(0, u32::MAX), vec![]);
}

#[test]
fn capacity_beyond_the_limit_is_a_device_init_error() {
    assert!(GpuSortedMap::new(MAX_CAPACITY).is_ok());
    match GpuSortedMap::new(MAX_CAPACITY + 1) {
        Err(e) => assert_eq!(e, GpuMapError::DeviceInit),
        Ok(_) => panic!("a map beyond the limit was made"),
    }
}

#[test]
fn scenario_delete_two_of_three() {
    let mut map = GpuSortedMap::new(8).unwrap();
    map.bulk_put(&[
        KvEntry { key: 1, value: 10 },
        KvEntry { key: 2, value: 20 },
        KvEntry { key: 3, value: 30 },
    ])
    .unwrap();
    map.bulk_delete(&[1, 3]);
    assert_eq!(map.bulk_get(&[1, 2, 3]), vec![None, Some(20), None]);
    assert_eq!(map.len(), 1);
    assert!(!map.is_empty());
}

#[test]
fn scenario_range_is_half_open() {
    let mut map = GpuSortedMap::new(16).unwrap();
    map.bulk_put(&[
        KvEntry { key: 1, value: 10 },
        KvEntry { key: 2, value: 20 },
        KvEntry { key: 3, value: 30 },
        KvEntry { key: 4, value: 40 },
    ])
    .unwrap();
    let hits = map.range(2, 4);
    let keys: Vec<u32> = hits.iter().map(|e| e.key).collect();
    assert_eq!(keys, vec![2, 3]);
    assert_eq!(hits, vec![KvEntry { key: 2, value: 20 }, KvEntry { key: 3, value: 30 }]);
}

#[test]
fn scenario_range_skips_tombstones() {
    let mut map = GpuSortedMap::new(16).unwrap();
    map.bulk_put(&[
        KvEntry { key: 1, value: 10 },
        KvEntry { key: 2, value: 20 },
        KvEntry { key: 3, value: 30 },
    ])
    .unwrap();
    map.bulk_delete(&[2]);
    let keys: Vec<u32> = map.range(1, 4).iter().map(|e| e.key).collect();
    assert_eq!(keys, vec![1, 3]);
}

#[test]
fn scenario_five_entries_need_five_slots() {
    let batch = [
        KvEntry { key: 1, value: 1 },
        KvEntry { key: 2, value: 2 },
        KvEntry { key: 3, value: 3 },
        KvEntry { key: 4, value: 4 },
        KvEntry { key: 5, value: 5 },
    ];
    let mut small = GpuSortedMap::new(4).unwrap();
    assert_eq!(
        small.bulk_put(&batch),
        Err(GpuMapError::CapacityExceeded { capacity: 4, requested: 5 })
    );
    assert_eq!(small.len(), 0);
    assert_eq!(small.bulk_get(&[1, 2, 3, 4, 5]), vec![None, None, None, None, None]);

    let mut roomy = GpuSortedMap::new(6).unwrap();
    assert_eq!(roomy.bulk_put(&batch), Ok(()));
    assert_eq!(roomy.len(), 5);
    assert_eq!(
        roomy.bulk_get(&[1, 2, 3, 4, 5]),
        vec![Some(1), Some(2), Some(3), Some(4), Some(5)]
    );
}

#[test]
fn scenario_update_keeps_one_entry() {
    let mut map = GpuSortedMap::new(8).unwrap();
    map.bulk_put(&[KvEntry { key: 1, value: 10 }]).unwrap();
    map.bulk_put(&[KvEntry { key: 1, value: 20 }]).unwrap();
    assert_eq!(map.bulk_get(&[1]), vec![Some(20)]);
    assert_eq!(map.len(), 1);
}

#[test]
fn duplicate_key_is_rejected_and_state_unchanged() {
    let mut map = GpuSortedMap::new(8).unwrap();
    map.bulk_put(&[KvEntry { key: 1, value: 10 }, KvEntry { key: 2, value: 20 }]).unwrap();
    let r = map.bulk_put(&[
        KvEntry { key: 5, value: 50 },
        KvEntry { key: 6, value: 60 },
        KvEntry { key: 5, value: 51 },
        KvEntry { key: 6, value: 61 },
    ]);
    assert_eq!(r, Err(GpuMapError::DuplicateKey { key: 5 }));
    assert_eq!(map.len(), 2);
    assert_eq!(map.bulk_get(&[1, 2, 5, 6]), vec![Some(10), Some(20), None, None]);
    assert_eq!(
        map.range(0, 100),
        vec![KvEntry { key: 1, value: 10 }, KvEntry { key: 2, value: 20 }]
    );
}

#[test]
fn duplicate_key_reports_the_first_repeat() {
    let mut map = GpuSortedMap::new(8).unwrap();
    let r = map.bulk_put(&[
        KvEntry { key: 9, value: 1 },
        KvEntry { key: 4, value: 2 },
        KvEntry { key: 4, value: 3 },
        KvEntry { key: 9, value: 4 },
    ]);
    assert_eq!(r, Err(GpuMapError::DuplicateKey { key: 4 }));
}

#[test]
fn tombstone_value_is_reserved() {
    let mut map = GpuSortedMap::new(8).unwrap();
    map.put(1, 10).unwrap();
    assert_eq!(
        map.put(2, 0xFFFF_FFFF),
        Err(GpuMapError::TombstoneReserved { value: 0xFFFF_FFFF })
    );
    assert_eq!(
        map.bulk_put(&[KvEntry { key: 3, value: 3 }, KvEntry { key: 4, value: TOMBSTONE_VALUE }]),
        Err(GpuMapError::TombstoneReserved { value: TOMBSTONE_VALUE })
    );
    assert_eq!(map.len(), 1);
    assert_eq!(map.bulk_get(&[1, 2, 3, 4]), vec![Some(10), None, None, None]);
}

#[test]
fn tombstone_is_reported_before_duplicate_and_capacity() {
    let mut map = GpuSortedMap::new(1).unwrap();
    let r = map.bulk_put(&[
        KvEntry { key: 1, value: 1 },
        KvEntry { key: 1, value: TOMBSTONE_VALUE },
        KvEntry { key: 2, value: 2 },
    ]);
    assert_eq!(r, Err(GpuMapError::TombstoneReserved { value: TOMBSTONE_VALUE }));
    let r = map.bulk_put(&[
        KvEntry { key: 1, value: 1 },
        KvEntry { key: 1, value: 5 },
        KvEntry { key: 2, value: 2 },
    ]);
    assert_eq!(r, Err(GpuMapError::DuplicateKey { key: 1 }));
    assert!(map.is_empty());
}

#[test]
fn empty_slices_change_nothing() {
    let mut map = GpuSortedMap::new(4).unwrap();
    map.put(7, 70).unwrap();
    assert_eq!(map.bulk_put(&[]), Ok(()));
    assert_eq!(map.bulk_get(&[]), vec![]);
    map.bulk_delete(&[]);
    assert_eq!(map.range(7, 7), vec![]);
    assert_eq!(map.len(), 1);
    assert_eq!(map.get(7), Some(70));
}

#[test]
fn inverted_range_is_empty() {
    let mut map = GpuSortedMap::new(4).unwrap();
    map.bulk_put(&[KvEntry { key: 1, value: 1 }, KvEntry { key: 2, value: 2 }]).unwrap();
    assert_eq!(map.range(2, 1), vec![]);
    assert_eq!(map.range(3, 3), vec![]);
    assert_eq!(map.range(3, 100), vec![]);
    assert_eq!(map.range(0, 1), vec![]);
}

#[test]
fn fill_exactly_to_capacity_then_one_more_fails() {
    let mut map = GpuSortedMap::new(6).unwrap();
    let batch: Vec<KvEntry> = (0..6).map(|i| KvEntry { key: 10 * i, value: i }).collect();
    assert_eq!(map.bulk_put(&batch), Ok(()));
    assert_eq!(map.len(), 6);
    assert_eq!(
        map.put(5, 5),
        Err(GpuMapError::CapacityExceeded { capacity: 6, requested: 7 })
    );
    assert_eq!(map.len(), 6);
    assert_eq!(map.get(5), None);
    // an update of a visible key needs no new slot
    assert_eq!(map.put(20, 99), Ok(()));
    assert_eq!(map.get(20), Some(99));
    assert_eq!(map.len(), 6);
}

#[test]
fn capacity_counts_only_keys_that_are_not_visible() {
    let mut map = GpuSortedMap::new(4).unwrap();
    map.bulk_put(&[
        KvEntry { key: 1, value: 1 },
        KvEntry { key: 2, value: 2 },
        KvEntry { key: 3, value: 3 },
    ])
    .unwrap();
    // two updates and one new key: 3 + 1 slots
    assert_eq!(
        map.bulk_put(&[
            KvEntry { key: 2, value: 20 },
            KvEntry { key: 4, value: 40 },
            KvEntry { key: 3, value: 30 },
        ]),
        Ok(())
    );
    assert_eq!(map.bulk_get(&[1, 2, 3, 4]), vec![Some(1), Some(20), Some(30), Some(40)]);
    assert_eq!(map.len(), 4);
    // two new keys: 4 + 2 slots
    assert_eq!(
        map.bulk_put(&[KvEntry { key: 5, value: 5 }, KvEntry { key: 1, value: 11 }, KvEntry { key: 6, value: 6 }]),
        Err(GpuMapError::CapacityExceeded { capacity: 4, requested: 6 })
    );
    assert_eq!(map.get(1), Some(1));
}

#[test]
fn tombstones_occupy_capacity() {
    let mut map = GpuSortedMap::new(2).unwrap();
    map.bulk_put(&[KvEntry { key: 1, value: 1 }, KvEntry { key: 2, value: 2 }]).unwrap();
    map.delete(1);
    assert_eq!(map.len(), 1);
    assert_eq!(map.slab_len(), 2);
    assert_eq!(
        map.put(3, 3),
        Err(GpuMapError::CapacityExceeded { capacity: 2, requested: 3 })
    );
    // the tombstone is not visible, so a put of its key asks for a slot too
    assert_eq!(
        map.put(1, 11),
        Err(GpuMapError::CapacityExceeded { capacity: 2, requested: 3 })
    );
    assert_eq!(map.get(3), None);
    assert_eq!(map.get(2), Some(2));
}

#[test]
fn put_is_idempotent() {
    let mut once = GpuSortedMap::new(8).unwrap();
    once.put(4, 40).unwrap();
    let mut twice = GpuSortedMap::new(8).unwrap();
    twice.put(4, 40).unwrap();
    twice.put(4, 40).unwrap();
    assert_eq!(once.len(), twice.len());
    assert_eq!(once.range(0, u32::MAX), twice.range(0, u32::MAX));
    assert_eq!(twice.get(4), Some(40));
}

#[test]
fn put_over_tombstone_restores_visibility() {
    let mut map = GpuSortedMap::new(4).unwrap();
    map.put(1, 10).unwrap();
    map.put(2, 20).unwrap();
    map.delete(1);
    assert_eq!(map.len(), 1);
    map.put(1, 11).unwrap();
    assert_eq!(map.get(1), Some(11));
    assert_eq!(map.len(), 2);
    assert_eq!(map.slab_len(), 2);
    assert_eq!(
        map.range(0, 10),
        vec![KvEntry { key: 1, value: 11 }, KvEntry { key: 2, value: 20 }]
    );
}

#[test]
fn disjoint_batches_commute() {
    let b1 = [KvEntry { key: 8, value: 80 }, KvEntry { key: 2, value: 20 }, KvEntry { key: 5, value: 50 }];
    let b2 = [KvEntry { key: 7, value: 70 }, KvEntry { key: 1, value: 10 }];
    let mut left = GpuSortedMap::new(5).unwrap();
    left.bulk_put(&b1).unwrap();
    left.bulk_put(&b2).unwrap();
    let mut right = GpuSortedMap::new(5).unwrap();
    right.bulk_put(&b2).unwrap();
    right.bulk_put(&b1).unwrap();
    let expected = vec![
        KvEntry { key: 1, value: 10 },
        KvEntry { key: 2, value: 20 },
        KvEntry { key: 5, value: 50 },
        KvEntry { key: 7, value: 70 },
        KvEntry { key: 8, value: 80 },
    ];
    assert_eq!(left.range(0, u32::MAX), expected);
    assert_eq!(right.range(0, u32::MAX), expected);
    assert_eq!(left.len(), 5);
    assert_eq!(right.len(), 5);
}

#[test]
fn largest_key_is_stored_beside_the_padding() {
    // three entries are padded to four slots with the sentinel key
    let mut map = GpuSortedMap::new(8).unwrap();
    map.bulk_put(&[
        KvEntry { key: u32::MAX, value: 5 },
        KvEntry { key: 1, value: 1 },
        KvEntry { key: 2, value: 2 },
    ])
    .unwrap();
    assert_eq!(map.get(u32::MAX), Some(5));
    assert_eq!(map.len(), 3);
    assert_eq!(map.range(0, u32::MAX), vec![KvEntry { key: 1, value: 1 }, KvEntry { key: 2, value: 2 }]);
    map.delete(u32::MAX);
    assert_eq!(map.get(u32::MAX), None);
    assert_eq!(map.len(), 2);
}

#[test]
fn history_of_writes_and_deletes() {
    let mut map = GpuSortedMap::new(8).unwrap();
    map.bulk_put(&[KvEntry { key: 3, value: 1 }, KvEntry { key: 4, value: 1 }]).unwrap();
    map.bulk_delete(&[3, 5]);
    map.bulk_put(&[KvEntry { key: 5, value: 2 }, KvEntry { key: 4, value: 2 }]).unwrap();
    assert!(map.bulk_put(&[KvEntry { key: 3, value: 9 }, KvEntry { key: 3, value: 9 }]).is_err());
    map.bulk_delete(&[4]);
    map.put(6, 0).unwrap();
    assert_eq!(map.bulk_get(&[3, 4, 5, 6, 7]), vec![None, None, Some(2), Some(0), None]);
    assert_eq!(map.len(), 2);
    let slab: Vec<u32> = map.range(0, u32::MAX).iter().map(|e| e.key).collect();
    assert_eq!(slab, vec![5, 6]);
}

#[test]
fn many_entries_round_trip() {
    let mut map = GpuSortedMap::new(4096).unwrap();
    let mut state: u32 = 0x5eed;
    let mut batch: Vec<KvEntry> = Vec::new();
    let mut seen = std::collections::BTreeMap::new();
    while batch.len() < 3000 {
        state = state.wrapping_mul(1664525).wrapping_add(1013904223);
        let key = state >> 8;
        if !seen.contains_key(&key) {
            seen.insert(key, key.wrapping_mul(31) & 0x7FFF_FFFF);
            batch.push(KvEntry { key, value: key.wrapping_mul(31) & 0x7FFF_FFFF });
        }
    }
    map.bulk_put(&batch[..1000]).unwrap();
    map.bulk_put(&batch[1000..]).unwrap();
    assert_eq!(map.len(), 3000);
    let keys: Vec<u32> = batch.iter().map(|e| e.key).collect();
    let expected: Vec<Option<u32>> = batch.iter().map(|e| Some(e.value)).collect();
    assert_eq!(map.bulk_get(&keys), expected);
    let all = map.range(0, u32::MAX);
    let sorted: Vec<KvEntry> = seen.iter().map(|(k, v)| KvEntry { key: *k, value: *v }).collect();
    assert_eq!(all, sorted);
}
