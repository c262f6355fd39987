use gpusorted_map::data::{workgroup_count, RangeParams};
use gpusorted_map::pipelines::bulk_delete::delete_entry;
use gpusorted_map::pipelines::bulk_get::{decode_results, lower_bound_search, search};
use gpusorted_map::pipelines::bulk_put::{dedup_entries, merge_entries};
use gpusorted_map::pipelines::range_scan::{copy_window, filter_live, range_bounds};
use gpusorted_map::pipelines::sort::{
    build_ranks, first_pass, next_pass, padded_len, run_sort_step, sort_entries, sort_pass,
    MAX_BATCH,
};
use gpusorted_map::validate::{
    batch_keys, check_capacity, count_found, find_duplicate_key, find_tombstone, unique_keys,
    validate_batch,
};
use gpusorted_map::{
    BulkDeleteOp, BulkDeletePipeline, BulkGetOp, BulkGetPipeline, BulkPutOp, BulkPutPipeline,
    DedupParams, GpuArray, GpuMapError, GpuSortedMap, GpuStorage, InputMeta, KvEntry, MergeMeta,
    RangeScanPipeline, ResultEntry, SortParams, TOMBSTONE_VALUE,
};

fn kv(key: u32, value: u32) -> KvEntry {
    KvEntry { key, value }
}

fn slab_of(entries: &[KvEntry], capacity: u32) -> GpuArray<KvEntry> {
    let mut slab = GpuArray::<KvEntry>::new(capacity);
    slab.write(entries);
    slab.update_len(entries.len() as u32);
    slab
}

#[test]
fn workgroups_cover_the_items() {
    assert_eq!(workgroup_count(0), 0);
    assert_eq!(workgroup_count(1), 1);
    assert_eq!(workgroup_count(64), 1);
    assert_eq!(workgroup_count(65), 2);
    assert_eq!(workgroup_count(u32::MAX), 67108864);
}

#[test]
fn padded_len_is_the_next_power_of_two() {
    assert_eq!(padded_len(0), 1);
    assert_eq!(padded_len(1), 1);
    assert_eq!(padded_len(2), 2);
    assert_eq!(padded_len(3), 4);
    assert_eq!(padded_len(5), 8);
    assert_eq!(padded_len(1024), 1024);
    assert_eq!(padded_len(1025), 2048);
    assert_eq!(padded_len(MAX_BATCH), 0x8000_0000);
    assert_eq!(padded_len(0x4000_0001), 0x8000_0000);
}

#[test]
fn ranks_hold_key_and_position() {
    let data = vec![kv(7, 70), kv(2, 20), kv(9, 90)];
    let ranks = build_ranks(&data, 3, 4);
    assert_eq!(
        ranks,
        vec![
            (7u64 << 32) | 0,
            (2u64 << 32) | 1,
            (9u64 << 32) | 2,
            (0xFFFF_FFFFu64 << 32) | 3,
        ]
    );
}

#[test]
fn one_pass_orders_each_pair() {
    // stage k = 2, pass j = 1: pairs (0,1) ascending, (2,3) descending
    let mut ranks: Vec<u64> = vec![4, 3, 1, 2];
    sort_pass(&mut ranks, SortParams { k: 2, j: 1, len: 4, _pad: 0 });
    assert_eq!(ranks, vec![3, 4, 2, 1]);
    // stage k = 4, pass j = 2: pairs (0,2) and (1,3), both ascending
    sort_pass(&mut ranks, SortParams { k: 4, j: 2, len: 4, _pad: 0 });
    assert_eq!(ranks, vec![2, 1, 3, 4]);
    sort_pass(&mut ranks, SortParams { k: 4, j: 1, len: 4, _pad: 0 });
    assert_eq!(ranks, vec![1, 2, 3, 4]);
}

#[test]
fn the_network_sorts() {
    let mut state: u64 = 12345;
    for exponent in 0..11u32 {
        let p: u32 = 1 << exponent;
        let mut ranks: Vec<u64> = Vec::new();
        for i in 0..p {
            state = state.wrapping_mul(6364136223846793005).wrapping_add(1442695040888963407);
            ranks.push(((state >> 40) << 32) | i as u64);
        }
        let mut expected = ranks.clone();
        expected.sort();
        run_sort_step(&mut ranks, p);
        assert_eq!(ranks, expected);
    }
}

#[test]
fn the_network_sorts_reversed_and_equal_keys() {
    let p: u32 = 64;
    let mut ranks: Vec<u64> = (0..p).map(|i| (((p - i) as u64) << 32) | i as u64).collect();
    run_sort_step(&mut ranks, p);
    let expected: Vec<u64> = (0..p).map(|i| (((i + 1) as u64) << 32) | (p - 1 - i) as u64).collect();
    assert_eq!(ranks, expected);
    let mut same: Vec<u64> = (0..p).map(|i| (5u64 << 32) | (p - 1 - i) as u64).collect();
    run_sort_step(&mut same, p);
    let expected: Vec<u64> = (0..p).map(|i| (5u64 << 32) | i as u64).collect();
    assert_eq!(same, expected);
}

#[test]
fn the_passes_follow_the_schedule() {
    assert!(first_pass(0).is_none());
    assert!(first_pass(1).is_none());
    let mut schedule: Vec<(u32, u32, u32)> = Vec::new();
    let mut next = first_pass(8);
    while let Some(p) = next {
        schedule.push((p.k, p.j, p.len));
        next = next_pass(p);
    }
    assert_eq!(
        schedule,
        vec![(2, 1, 8), (4, 2, 8), (4, 1, 8), (8, 4, 8), (8, 2, 8), (8, 1, 8)]
    );
    let only = first_pass(2).unwrap();
    assert_eq!((only.k, only.j, only.len), (2, 1, 2));
    assert!(next_pass(only).is_none());
    let last = SortParams { k: MAX_BATCH, j: 1, len: MAX_BATCH, _pad: 0 };
    assert!(next_pass(last).is_none());
    let wide = next_pass(SortParams { k: 0x4000_0000, j: 1, len: MAX_BATCH, _pad: 0 }).unwrap();
    assert_eq!((wide.k, wide.j), (0x8000_0000, 0x4000_0000));
}

#[test]
fn sort_is_stable_and_leaves_the_rest() {
    let mut data = vec![kv(5, 1), kv(3, 1), kv(5, 2), kv(1, 1), kv(3, 2), kv(5, 3), kv(0, 99)];
    sort_entries(&mut data, 6);
    assert_eq!(
        data,
        vec![kv(1, 1), kv(3, 1), kv(3, 2), kv(5, 1), kv(5, 2), kv(5, 3), kv(0, 99)]
    );
    let mut one = vec![kv(4, 4)];
    sort_entries(&mut one, 1);
    assert_eq!(one, vec![kv(4, 4)]);
    let mut none: Vec<KvEntry> = vec![kv(4, 4)];
    sort_entries(&mut none, 0);
    assert_eq!(none, vec![kv(4, 4)]);
}

#[test]
fn sort_keeps_the_largest_key_before_the_padding() {
    let mut data = vec![kv(u32::MAX, 7), kv(u32::MAX, 8), kv(1, 1)];
    sort_entries(&mut data, 3);
    assert_eq!(data, vec![kv(1, 1), kv(u32::MAX, 7), kv(u32::MAX, 8)]);
}

#[test]
fn dedup_keeps_the_last_of_each_run() {
    let mut data = vec![kv(1, 1), kv(3, 1), kv(3, 2), kv(5, 1), kv(5, 2), kv(5, 3), kv(0, 99)];
    let meta = dedup_entries(&mut data, DedupParams { len: 6, _pad: [0; 3] });
    assert_eq!(meta.len, 3);
    assert_eq!(data[..3].to_vec(), vec![kv(1, 1), kv(3, 2), kv(5, 3)]);
    assert_eq!(data[6], kv(0, 99));
    let mut empty: Vec<KvEntry> = vec![];
    assert_eq!(dedup_entries(&mut empty, DedupParams { len: 0, _pad: [0; 3] }).len, 0);
}

#[test]
fn merge_prefers_the_batch() {
    let slab = vec![kv(1, 10), kv(3, TOMBSTONE_VALUE), kv(5, 50), kv(9, 0)];
    let batch = vec![kv(0, 1), kv(3, 33), kv(5, 55), kv(7, 77), kv(8, 0)];
    let out = merge_entries(&slab, 3, &batch, InputMeta { len: 4, _pad: [0; 3] });
    assert_eq!(out, vec![kv(0, 1), kv(1, 10), kv(3, 33), kv(5, 55), kv(7, 77)]);
    let only_slab = merge_entries(&slab, 3, &batch, InputMeta { len: 0, _pad: [0; 3] });
    assert_eq!(only_slab, vec![kv(1, 10), kv(3, TOMBSTONE_VALUE), kv(5, 50)]);
    let only_batch = merge_entries(&slab, 0, &batch, InputMeta { len: 2, _pad: [0; 3] });
    assert_eq!(only_batch, vec![kv(0, 1), kv(3, 33)]);
}

#[test]
fn put_pipeline_merges_and_reports_the_length() {
    let mut slab = slab_of(&[kv(2, 20), kv(4, 40)], 8);
    let mut input = GpuArray::<KvEntry>::new(8);
    let mut merge = GpuArray::<KvEntry>::new(8);
    let mut merge_meta = GpuStorage::<MergeMeta>::new();
    input.write(&[kv(4, 41), kv(1, 10), kv(4, 42), kv(3, 30)]);
    let pipeline = BulkPutPipeline::new();
    let new_len = pipeline.execute(&mut slab, &mut input, &mut merge, &mut merge_meta, 4);
    assert_eq!(new_len, 4);
    assert_eq!(slab.len(), 2);
    assert_eq!(merge_meta.buffer().unwrap().len, 4);
    slab.update_len(new_len);
    assert_eq!(
        slab.buffer()[..4].to_vec(),
        vec![kv(1, 10), kv(2, 20), kv(3, 30), kv(4, 42)]
    );
}

#[test]
fn put_pipeline_steps() {
    let pipeline = BulkPutPipeline::new();
    let mut input = GpuArray::<KvEntry>::new(8);
    input.write(&[kv(3, 1), kv(1, 1), kv(3, 2)]);
    pipeline.run_sort_step(&mut input, 3);
    assert_eq!(input.buffer().clone(), vec![kv(1, 1), kv(3, 1), kv(3, 2)]);
    let mut merge_meta = GpuStorage::<MergeMeta>::new();
    let dedup_len = pipeline.run_dedup_step(&mut input, 3, &mut merge_meta);
    assert_eq!(dedup_len, 2);
    assert_eq!(merge_meta.buffer().unwrap().len, 2);
    let mut slab = slab_of(&[kv(0, 0), kv(1, 9)], 8);
    let mut merge = GpuArray::<KvEntry>::new(8);
    let merge_len = pipeline.run_merge_step(&mut slab, &input, &mut merge, &mut merge_meta, 2);
    assert_eq!(merge_len, 3);
    assert_eq!(merge_meta.buffer().unwrap().len, 3);
    assert_eq!(merge.buffer().clone(), vec![kv(0, 0), kv(1, 1), kv(3, 2)]);
    assert_eq!(slab.buffer().clone(), vec![kv(0, 0), kv(1, 1), kv(3, 2)]);
}

#[test]
fn lower_bound_is_the_first_key_not_below() {
    let slab = vec![kv(10, 0), kv(20, 0), kv(30, 0), kv(5, 0)];
    assert_eq!(lower_bound_search(&slab, 3, 0), 0);
    assert_eq!(lower_bound_search(&slab, 3, 10), 0);
    assert_eq!(lower_bound_search(&slab, 3, 11), 1);
    assert_eq!(lower_bound_search(&slab, 3, 30), 2);
    assert_eq!(lower_bound_search(&slab, 3, 31), 3);
    assert_eq!(lower_bound_search(&slab, 0, 31), 0);
}

#[test]
fn search_flags_what_it_finds() {
    let slab = vec![kv(10, 1), kv(20, TOMBSTONE_VALUE), kv(30, 3)];
    let hit = search(&slab, 3, 30);
    assert_eq!((hit.value, hit.found), (3, 1));
    let dead = search(&slab, 3, 20);
    assert_eq!((dead.value, dead.found), (0, 0));
    let miss = search(&slab, 3, 25);
    assert_eq!((miss.value, miss.found), (0, 0));
    let beyond = search(&slab, 2, 30);
    assert_eq!((beyond.value, beyond.found), (0, 0));
}

#[test]
fn result_records_decode() {
    let records = vec![
        ResultEntry { value: 5, found: 1, _pad: [0; 2] },
        ResultEntry { value: 5, found: 0, _pad: [0; 2] },
        ResultEntry { value: TOMBSTONE_VALUE, found: 1, _pad: [0; 2] },
        ResultEntry::present(0),
        ResultEntry::absent(),
    ];
    assert_eq!(decode_results(&records), vec![Some(5), None, None, Some(0), None]);
    assert_eq!(records[0].to_option(), Some(5));
}

#[test]
fn get_pipeline_answers_in_key_order() {
    let slab = slab_of(&[kv(7, 9), kv(13, 1), kv(42, 7)], 8);
    let pipeline = BulkGetPipeline::new();
    assert_eq!(
        pipeline.execute(&slab, &[7, 13, 42, 99, 7]),
        vec![Some(9), Some(1), Some(7), None, Some(9)]
    );
    assert_eq!(pipeline.execute(&slab, &[]), vec![]);
}

#[test]
fn delete_marks_in_place() {
    let mut slab = vec![kv(1, 10), kv(2, 20), kv(3, 30)];
    delete_entry(&mut slab, 3, 2);
    assert_eq!(slab, vec![kv(1, 10), kv(2, TOMBSTONE_VALUE), kv(3, 30)]);
    delete_entry(&mut slab, 3, 9);
    delete_entry(&mut slab, 2, 3);
    assert_eq!(slab, vec![kv(1, 10), kv(2, TOMBSTONE_VALUE), kv(3, 30)]);
    assert_eq!(KvEntry::tombstone(2), slab[1]);
}

#[test]
fn delete_pipeline_keeps_keys_and_length() {
    let mut slab = slab_of(&[kv(1, 10), kv(2, 20), kv(3, 30)], 4);
    BulkDeletePipeline::new().execute(&mut slab, &[3, 1, 3, 8]);
    assert_eq!(slab.len(), 3);
    assert_eq!(
        slab.buffer().clone(),
        vec![kv(1, TOMBSTONE_VALUE), kv(2, 20), kv(3, TOMBSTONE_VALUE)]
    );
}

#[test]
fn range_bounds_are_lower_bounds() {
    let slab = vec![kv(10, 0), kv(20, 0), kv(30, 0)];
    let meta = range_bounds(&slab, 3, RangeParams { from_key: 15, to_key: 30, _pad: [0; 2] });
    assert_eq!((meta.start, meta.end), (1, 2));
    let meta = range_bounds(&slab, 3, RangeParams { from_key: 0, to_key: 100, _pad: [0; 2] });
    assert_eq!((meta.start, meta.end), (0, 3));
    let meta = range_bounds(&slab, 0, RangeParams { from_key: 0, to_key: 100, _pad: [0; 2] });
    assert_eq!((meta.start, meta.end), (0, 0));
}

#[test]
fn window_copy_and_filter() {
    let slab = vec![kv(1, 1), kv(2, TOMBSTONE_VALUE), kv(3, 3), kv(4, 4)];
    let window = copy_window(&slab, 1, 4);
    assert_eq!(window, vec![kv(2, TOMBSTONE_VALUE), kv(3, 3), kv(4, 4)]);
    assert_eq!(filter_live(&window), vec![kv(3, 3), kv(4, 4)]);
    assert_eq!(copy_window(&slab, 2, 2), vec![]);
}

#[test]
fn range_pipeline_scans_half_open() {
    let slab = slab_of(&[kv(1, 10), kv(2, TOMBSTONE_VALUE), kv(3, 30), kv(4, 40)], 8);
    let pipeline = RangeScanPipeline::new();
    assert_eq!(pipeline.execute(&slab, 1, 4), vec![kv(1, 10), kv(3, 30)]);
    assert_eq!(pipeline.execute(&slab, 4, 5), vec![kv(4, 40)]);
    assert_eq!(pipeline.execute(&slab, 2, 3), vec![]);
    assert_eq!(pipeline.execute(&slab, 4, 4), vec![]);
    assert_eq!(pipeline.execute(&slab, 5, 1), vec![]);
    let empty = GpuArray::<KvEntry>::new(8);
    assert_eq!(pipeline.execute(&empty, 0, 10), vec![]);
}

#[test]
fn host_checks_on_a_batch() {
    let clean = [kv(3, 1), kv(1, 2), kv(2, 3)];
    assert!(!find_tombstone(&clean));
    assert!(find_tombstone(&[kv(3, 1), kv(1, TOMBSTONE_VALUE)]));
    assert!(!find_tombstone(&[]));
    assert_eq!(find_duplicate_key(&clean), None);
    assert_eq!(find_duplicate_key(&[kv(3, 1), kv(1, 2), kv(3, 3), kv(1, 4)]), Some(3));
    assert_eq!(find_duplicate_key(&[kv(3, 1), kv(1, 2), kv(1, 3), kv(3, 4)]), Some(1));
    assert_eq!(find_duplicate_key(&[]), None);
    assert_eq!(batch_keys(&clean), vec![3, 1, 2]);
    assert_eq!(count_found(&vec![Some(1), None, Some(0), None, None]), 2);
    assert_eq!(count_found(&vec![]), 0);
    assert_eq!(unique_keys(&[7, 7, 99, 3, 99, 7]), vec![7, 99, 3]);
    assert_eq!(unique_keys(&[]), vec![]);
}

#[test]
fn batch_validation_orders_its_errors() {
    assert_eq!(validate_batch(&[]), Ok(()));
    assert_eq!(validate_batch(&[kv(1, 1), kv(2, 1)]), Ok(()));
    assert_eq!(
        validate_batch(&[kv(1, 1), kv(1, 2), kv(3, TOMBSTONE_VALUE)]),
        Err(GpuMapError::TombstoneReserved { value: 0xFFFF_FFFF })
    );
    assert_eq!(
        validate_batch(&[kv(1, 1), kv(2, 2), kv(2, 3), kv(1, 4)]),
        Err(GpuMapError::DuplicateKey { key: 2 })
    );
}

#[test]
fn capacity_check_counts_the_missing_keys() {
    assert_eq!(check_capacity(3, 8, 5, 0), Ok(5));
    assert_eq!(check_capacity(3, 8, 6, 1), Ok(5));
    assert_eq!(check_capacity(8, 8, 4, 4), Ok(0));
    assert_eq!(
        check_capacity(3, 8, 6, 0),
        Err(GpuMapError::CapacityExceeded { capacity: 8, requested: 9 })
    );
    assert_eq!(
        check_capacity(0, 0, 1, 0),
        Err(GpuMapError::CapacityExceeded { capacity: 0, requested: 1 })
    );
    assert_eq!(
        check_capacity(10, 20, u32::MAX as usize, 5),
        Err(GpuMapError::CapacityExceeded { capacity: 20, requested: u32::MAX })
    );
    assert_eq!(
        check_capacity(10, 20, u32::MAX as usize - 5, 5),
        Err(GpuMapError::CapacityExceeded { capacity: 20, requested: u32::MAX })
    );
    assert_eq!(
        check_capacity(10, 20, u32::MAX as usize - 5, 6),
        Err(GpuMapError::CapacityExceeded { capacity: 20, requested: u32::MAX - 1 })
    );
}

#[test]
fn operations_hold_their_batches() {
    let put = BulkPutOp::new(&[kv(2, 20), kv(1, 10)]);
    assert_eq!(put.entries, vec![kv(2, 20), kv(1, 10)]);
    let del = BulkDeleteOp::new(&[4, 2, 4]);
    assert_eq!(
        del.entries,
        vec![kv(4, TOMBSTONE_VALUE), kv(2, TOMBSTONE_VALUE), kv(4, TOMBSTONE_VALUE)]
    );
    let get = BulkGetOp::new(&[1, 2, 3]);
    assert_eq!(get.keys, vec![1, 2, 3]);

    let mut map = GpuSortedMap::new(4).unwrap();
    assert_eq!(put.execute(&mut map), Ok(()));
    assert_eq!(get.execute(&map), vec![Some(10), Some(20), None]);
    del.execute(&mut map);
    assert_eq!(BulkGetOp::new(&[1, 2]).execute(&map), vec![Some(10), None]);
    assert_eq!(map.len(), 1);
}

#[test]
fn delete_pipeline_leaves_the_slots_behind_the_length() {
    let mut slab = GpuArray::<KvEntry>::new(8);
    slab.write(&[kv(1, 10), kv(2, 20), kv(3, 30), kv(2, 99), kv(1, 98)]);
    slab.update_len(3);
    let record = slab.meta_buffer();
    BulkDeletePipeline::new().execute(&mut slab, &[2, 1]);
    assert_eq!(
        slab.buffer().clone(),
        vec![kv(1, TOMBSTONE_VALUE), kv(2, TOMBSTONE_VALUE), kv(3, 30), kv(2, 99), kv(1, 98)]
    );
    assert_eq!(slab.len(), 3);
    let after = slab.meta_buffer();
    assert_eq!((after.len, after.capacity, after._pad), (record.len, record.capacity, [0, 0]));
}

#[test]
fn sort_and_dedup_steps_leave_the_slots_behind_the_batch() {
    let pipeline = BulkPutPipeline::new();
    let mut input = GpuArray::<KvEntry>::new(8);
    input.write(&[kv(3, 1), kv(1, 1), kv(3, 2), kv(0, 7), kv(9, 9)]);
    pipeline.run_sort_step(&mut input, 3);
    assert_eq!(
        input.buffer().clone(),
        vec![kv(1, 1), kv(3, 1), kv(3, 2), kv(0, 7), kv(9, 9)]
    );
    let mut merge_meta = GpuStorage::<MergeMeta>::new();
    let dedup_len = pipeline.run_dedup_step(&mut input, 3, &mut merge_meta);
    assert_eq!(dedup_len, 2);
    assert_eq!(input.buffer()[..2].to_vec(), vec![kv(1, 1), kv(3, 2)]);
    assert_eq!(input.buffer()[3..].to_vec(), vec![kv(0, 7), kv(9, 9)]);
    let record = merge_meta.buffer().unwrap();
    assert_eq!((record.len, record._pad), (2, [0, 0, 0]));
    assert_eq!(input.meta_buffer()._pad, [0, 0]);
}

#[test]
fn records_are_written_with_zero_padding() {
    assert_eq!(ResultEntry::absent()._pad, [0, 0]);
    assert_eq!(ResultEntry::present(5)._pad, [0, 0]);
    let slab = vec![kv(10, 1), kv(20, 2)];
    assert_eq!(search(&slab, 2, 20)._pad, [0, 0]);
    assert_eq!(search(&slab, 2, 21)._pad, [0, 0]);
    let meta = range_bounds(&slab, 2, RangeParams { from_key: 0, to_key: 15, _pad: [0; 2] });
    assert_eq!((meta.start, meta.end, meta._pad), (0, 1, [0, 0]));
    let mut data = vec![kv(1, 1), kv(1, 2)];
    let meta = dedup_entries(&mut data, DedupParams { len: 2, _pad: [0; 3] });
    assert_eq!((meta.len, meta._pad), (1, [0, 0, 0]));
}
