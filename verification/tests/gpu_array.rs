use gpusorted_map::{GpuArray, GpuStorage, KvEntry, MergeMeta, SlabMeta};

#[test]
fn creates_with_capacity() {
    let array = GpuArray::<u32>::new(4);
    assert_eq!(array.capacity(), 4);
    assert_eq!(array.len(), 0);
}

#[test]
fn update_len_clamps_and_updates_meta() {
    let mut array = GpuArray::<u32>::new(4);

    array.update_len(10);
    assert_eq!(array.len(), 4);

    let meta = vec![array.meta_buffer()];
    assert_eq!(meta.len(), 1);
    assert_eq!(meta[0].len, 4);
    assert_eq!(meta[0].capacity, 4);
}

#[test]
fn write_persists_data() {
    let mut array = GpuArray::<u32>::new(4);

    let data = [10_u32, 20, 30, 40];
    array.write(&data);

    let readback = array.buffer().clone();
    assert_eq!(readback, data);
}

#[test]
fn write_empty_does_nothing() {
    let mut array = GpuArray::<u32>::new(4);
    array.write(&[]);
    assert!(array.buffer().is_empty());
    assert_eq!(array.len(), 0);
}

#[test]
fn update_len_below_capacity_is_kept() {
    let mut array = GpuArray::<u32>::new(8);
    array.update_len(3);
    assert_eq!(array.len(), 3);
    assert_eq!(array.meta_buffer().len, 3);
    assert_eq!(array.meta_buffer().capacity, 8);
    array.update_len(8);
    assert_eq!(array.len(), 8);
}

#[test]
fn write_overwrites_only_the_prefix() {
    let mut array = GpuArray::<u32>::new(6);
    array.write(&[1, 2, 3, 4, 5]);
    array.write(&[9, 8]);
    assert_eq!(array.buffer().clone(), vec![9, 8, 3, 4, 5]);
    assert_eq!(array.len(), 0);
    array.write(&[7, 7, 7, 7, 7, 7]);
    assert_eq!(array.buffer().clone(), vec![7, 7, 7, 7, 7, 7]);
}

#[test]
fn copy_from_takes_the_written_slots() {
    let mut source = GpuArray::<KvEntry>::new(4);
    source.write(&[KvEntry { key: 1, value: 10 }, KvEntry { key: 2, value: 20 }]);
    let mut target = GpuArray::<KvEntry>::new(4);
    target.write(&[
        KvEntry { key: 5, value: 50 },
        KvEntry { key: 6, value: 60 },
        KvEntry { key: 7, value: 70 },
    ]);
    target.update_len(3);
    target.copy_from(&source);
    assert_eq!(
        target.buffer().clone(),
        vec![
            KvEntry { key: 1, value: 10 },
            KvEntry { key: 2, value: 20 },
            KvEntry { key: 7, value: 70 },
        ]
    );
    assert_eq!(target.len(), 3);
}

#[test]
fn storage_cell_holds_the_last_record() {
    let mut cell = GpuStorage::<MergeMeta>::new();
    assert!(cell.buffer().is_none());
    cell.write(MergeMeta { len: 5, _pad: [0; 3] });
    cell.write(MergeMeta { len: 7, _pad: [0; 3] });
    assert_eq!(cell.buffer().unwrap().len, 7);
}

#[test]
fn length_record_has_zero_padding() {
    let mut array = GpuArray::<u32>::new(4);
    let fresh = array.meta_buffer();
    assert_eq!((fresh.len, fresh.capacity, fresh._pad), (0, 4, [0, 0]));
    array.write(&[1, 2, 3]);
    array.update_len(9);
    let meta = array.meta_buffer();
    assert_eq!((meta.len, meta.capacity, meta._pad), (4, 4, [0, 0]));
    assert_eq!(array.buffer().clone(), vec![1, 2, 3]);
}

#[test]
fn clamped_length_record() {
    let m = SlabMeta::clamped(3, 8);
    assert_eq!((m.len, m.capacity, m._pad), (3, 8, [0, 0]));
    let m = SlabMeta::clamped(8, 8);
    assert_eq!((m.len, m.capacity, m._pad), (8, 8, [0, 0]));
    let m = SlabMeta::clamped(u32::MAX, 8);
    assert_eq!((m.len, m.capacity, m._pad), (8, 8, [0, 0]));
    let m = SlabMeta::clamped(1, 0);
    assert_eq!((m.len, m.capacity, m._pad), (0, 0, [0, 0]));
}
