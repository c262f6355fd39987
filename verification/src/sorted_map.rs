//! The map: the slab with its auxiliary buffers and pipelines, and the
//! host-side sequencing of every operation.

use vstd::prelude::*;
use vstd::slice::slice_to_vec;
use crate::data::{KvEntry, MergeMeta, TOMBSTONE_VALUE};
use crate::error::GpuMapError;
use crate::gpu_array::{GpuArray, GpuStorage};
use crate::laws::law_range_ascending;
use crate::model::{clip, delete_all, keys_of, lemma_delete_all, lemma_delete_all_live,
    lemma_delete_all_same_keys, lemma_found_count, lemma_live_count_bound, lemma_live_count_empty,
    lemma_put_all, lemma_put_counts, lemma_single_put, live_count, net_new, put_all, put_error,
    put_result, range_of, sorted, upsert, visible};
use crate::pipelines::bulk_delete::BulkDeletePipeline;
use crate::pipelines::bulk_get::BulkGetPipeline;
use crate::pipelines::bulk_put::BulkPutPipeline;
use crate::pipelines::range_scan::RangeScanPipeline;
use crate::pipelines::sort::MAX_BATCH;
use crate::validate::{batch_keys, check_capacity, count_found, unique_keys, validate_batch};

verus! {

/// The largest capacity a map can be made with: a batch that fills it can
/// still be sorted.
pub const MAX_CAPACITY: u32 = MAX_BATCH;

/// The tombstone entries that a delete of `keys` stands for.
pub open spec fn tombstones_of(keys: Seq<u32>) -> Seq<KvEntry> {
    Seq::new(keys.len(), |i: int| KvEntry { key: keys[i], value: TOMBSTONE_VALUE })
}

/// A sorted map from 32-bit keys to 32-bit values with a fixed capacity.
///
/// Its view is the slab: the stored entries, tombstones included, strictly
/// ascending by key.
pub struct GpuSortedMap {
    slab: GpuArray<KvEntry>,
    input: GpuArray<KvEntry>,
    merge: GpuArray<KvEntry>,
    merge_meta: GpuStorage<MergeMeta>,
    bulk_get_pipeline: BulkGetPipeline,
    bulk_put_pipeline: BulkPutPipeline,
    bulk_delete_pipeline: BulkDeletePipeline,
    range_scan_pipeline: RangeScanPipeline,
    live: u32,
}

impl View for GpuSortedMap {
    type V = Seq<KvEntry>;

    closed spec fn view(&self) -> Seq<KvEntry> {
        self.slab.entries()
    }
}

/// A pending batch insert.
pub struct BulkPutOp {
    pub entries: Vec<KvEntry>,
}

/// A pending batch lookup.
pub struct BulkGetOp {
    pub keys: Vec<u32>,
}

/// A pending batch delete, held as the tombstone entries it stands for.
pub struct BulkDeleteOp {
    pub entries: Vec<KvEntry>,
}

impl BulkPutOp {
    /// The insert of `entries`, in their order.
    pub fn new(entries: &[KvEntry]) -> (op: Self)
        ensures
            op.entries@ == entries@,
    {
        BulkPutOp { entries: slice_to_vec(entries) }
    }

    /// Validates the batch and, if it is accepted, merges it into the map.
    ///
    /// The batch is refused, and the map left as it was, when an entry
    /// carries the tombstone value, when two entries share a key, or when
    /// the slab has no room for the keys that are not visible yet; the
    /// errors come in that order.  An accepted batch is written over the
    /// slab entry by entry.
    pub fn execute(self, map: &mut GpuSortedMap) -> (r: Result<(), GpuMapError>)
        requires
            old(map).wf(),
        ensures
            final(map).wf(),
            final(map).spec_capacity() == old(map).spec_capacity(),
            final(map)@ == put_result(old(map)@, old(map).spec_capacity(), self.entries@),
            r == match put_error(old(map)@, old(map).spec_capacity(), self.entries@) {
                Some(e) => Err::<(), GpuMapError>(e),
                None => Ok(()),
            },
    {
        let ghost s = map@;
        let ghost batch = self.entries@;
        let n: usize = self.entries.len();
        if n == 0 {
            return Ok(());
        }
        match validate_batch(self.entries.as_slice()) {
            Err(e) => {
                return Err(e);
            },
            Ok(()) => {},
        }
        let keys: Vec<u32> = batch_keys(self.entries.as_slice());
        let results: Vec<Option<u32>> = map.bulk_get_pipeline.execute(&map.slab, keys.as_slice());
        let found: usize = count_found(&results);
        proof {
            lemma_found_count(s, keys@, results@);
            lemma_put_counts(s, batch);
            lemma_live_count_bound(s);
            lemma_put_all(s, batch);
        }
        let absent: u32 = match check_capacity(map.slab.len, map.slab.capacity, n, found) {
            Err(e) => {
                return Err(e);
            },
            Ok(absent) => absent,
        };
        assert(absent == net_new(s, batch));
        map.input.write(self.entries.as_slice());
        assert(map.input.buffer@.take(n as int) =~= batch);
        let new_len: u32 = map.bulk_put_pipeline.execute(
            &mut map.slab,
            &mut map.input,
            &mut map.merge,
            &mut map.merge_meta,
            n as u32,
        );
        map.slab.update_len(new_len);
        map.live = map.live + absent;
        proof {
            lemma_live_count_bound(put_all(s, batch));
        }
        Ok(())
    }
}

impl BulkGetOp {
    /// The lookup of `keys`, in their order.
    pub fn new(keys: &[u32]) -> (op: Self)
        ensures
            op.keys@ == keys@,
    {
        BulkGetOp { keys: slice_to_vec(keys) }
    }

    /// Looks every key up: the result at each position is the value visible
    /// under the key at that position.
    pub fn execute(self, map: &GpuSortedMap) -> (results: Vec<Option<u32>>)
        requires
            map.wf(),
        ensures
            results@.len() == self.keys@.len(),
            forall|i: int|
                0 <= i < self.keys@.len() ==> #[trigger] results@[i] == visible(
                    map@,
                    self.keys@[i],
                ),
    {
        map.bulk_get_pipeline.execute(&map.slab, self.keys.as_slice())
    }
}

impl BulkDeleteOp {
    /// The delete of `keys`: one tombstone entry per key, in their order.
    pub fn new(keys: &[u32]) -> (op: Self)
        ensures
            op.entries@ == tombstones_of(keys@),
    {
        let mut entries: Vec<KvEntry> = Vec::new();
        let mut i: usize = 0;
        while i < keys.len()
            invariant
                i <= keys@.len(),
                entries@.len() == i,
                forall|x: int|
                    0 <= x < i ==> #[trigger] entries@[x] == (KvEntry {
                        key: keys@[x],
                        value: TOMBSTONE_VALUE,
                    }),
            decreases keys@.len() - i,
        {
            entries.push(KvEntry::tombstone(keys[i]));
            i = i + 1;
        }
        assert(entries@ =~= tombstones_of(keys@));
        BulkDeleteOp { entries }
    }

    /// Marks the entries of the keys as deleted and lowers the live count by
    /// the number of distinct keys that were visible.  Keys that are not
    /// stored change nothing.
    pub fn execute(self, map: &mut GpuSortedMap)
        requires
            old(map).wf(),
        ensures
            final(map).wf(),
            final(map).spec_capacity() == old(map).spec_capacity(),
            final(map)@ == delete_all(old(map)@, keys_of(self.entries@)),
    {
        let ghost s = map@;
        let keys: Vec<u32> = batch_keys(self.entries.as_slice());
        let uniq: Vec<u32> = unique_keys(keys.as_slice());
        let results: Vec<Option<u32>> = map.bulk_get_pipeline.execute(&map.slab, uniq.as_slice());
        let found: usize = count_found(&results);
        proof {
            lemma_found_count(s, uniq@, results@);
            lemma_delete_all_live(s, uniq@);
            lemma_delete_all_same_keys(s, uniq@, keys@);
            lemma_delete_all(s, keys@);
            lemma_live_count_bound(s);
        }
        map.bulk_delete_pipeline.execute(&mut map.slab, uniq.as_slice());
        map.live = map.live - found as u32;
    }
}

impl GpuSortedMap {
    /// The slab is sorted and within the capacity, the buffers have the
    /// capacity of the slab, and the live count is the number of entries
    /// that are not tombstones.
    pub closed spec fn wf(&self) -> bool {
        &&& self.slab.wf()
        &&& self.slab.readable()
        &&& sorted(self.slab.entries())
        &&& self.slab.capacity <= MAX_CAPACITY
        &&& self.input.wf()
        &&& self.input.capacity == self.slab.capacity
        &&& self.merge.wf()
        &&& self.merge.capacity == self.slab.capacity
        &&& self.live == live_count(self.slab.entries())
    }

    /// The configured capacity.
    pub closed spec fn spec_capacity(&self) -> u32 {
        self.slab.capacity
    }

    /// The slab of a map is strictly ascending by key and no longer than the
    /// capacity.
    pub proof fn lemma_slab_sorted(&self)
        requires
            self.wf(),
        ensures
            sorted(self@),
            self@.len() <= self.spec_capacity(),
            self.spec_capacity() <= MAX_CAPACITY,
    {
    }

    /// An empty map with `capacity` slots.  No map can be made with more
    /// than `MAX_CAPACITY` slots.
    pub fn new(capacity: u32) -> (r: Result<Self, GpuMapError>)
        ensures
            capacity <= MAX_CAPACITY ==> r is Ok,
            capacity > MAX_CAPACITY ==> r == Err::<Self, GpuMapError>(GpuMapError::DeviceInit),
            r is Ok ==> r->Ok_0.wf() && r->Ok_0.spec_capacity() == capacity && r->Ok_0@
                == Seq::<KvEntry>::empty() && live_count(r->Ok_0@) == 0,
    {
        if capacity > MAX_CAPACITY {
            return Err(GpuMapError::DeviceInit);
        }
        let map = GpuSortedMap {
            slab: GpuArray::new(capacity),
            input: GpuArray::new(capacity),
            merge: GpuArray::new(capacity),
            merge_meta: GpuStorage::new(),
            bulk_get_pipeline: BulkGetPipeline::new(),
            bulk_put_pipeline: BulkPutPipeline::new(),
            bulk_delete_pipeline: BulkDeletePipeline::new(),
            range_scan_pipeline: RangeScanPipeline::new(),
            live: 0,
        };
        proof {
            lemma_live_count_empty();
        }
        Ok(map)
    }

    /// The configured capacity.
    pub fn capacity(&self) -> (c: u32)
        ensures
            c == self.spec_capacity(),
    {
        self.slab.capacity
    }

    /// Number of visible entries: the entries of the slab that are not
    /// tombstones.
    pub fn len(&self) -> (n: u32)
        requires
            self.wf(),
        ensures
            n == live_count(self@),
            n <= self@.len(),
            n <= self.spec_capacity(),
    {
        proof {
            lemma_live_count_bound(self@);
        }
        self.live
    }

    /// Number of slots of the slab in use: the visible entries and the
    /// tombstones.
    pub fn slab_len(&self) -> (n: u32)
        requires
            self.wf(),
        ensures
            n == self@.len(),
            n <= self.spec_capacity(),
    {
        self.slab.len
    }

    /// Whether no entry is visible.
    pub fn is_empty(&self) -> (b: bool)
        requires
            self.wf(),
        ensures
            b == (live_count(self@) == 0),
    {
        self.live == 0
    }

    /// Inserts or updates a batch of entries.  See [`BulkPutOp::execute`].
    pub fn bulk_put(&mut self, entries: &[KvEntry]) -> (r: Result<(), GpuMapError>)
        requires
            old(self).wf(),
        ensures
            final(self).wf(),
            final(self).spec_capacity() == old(self).spec_capacity(),
            sorted(final(self)@),
            final(self)@.len() <= final(self).spec_capacity(),
            final(self)@ == put_result(old(self)@, old(self).spec_capacity(), entries@),
            r == match put_error(old(self)@, old(self).spec_capacity(), entries@) {
                Some(e) => Err::<(), GpuMapError>(e),
                None => Ok(()),
            },
    {
        if entries.len() == 0 {
            return Ok(());
        }
        BulkPutOp::new(entries).execute(self)
    }

    /// The value visible under each key of `keys`: `None` for a key that is
    /// not stored or deleted.  An empty `keys` gives an empty result.
    pub fn bulk_get(&self, keys: &[u32]) -> (results: Vec<Option<u32>>)
        requires
            self.wf(),
        ensures
            results@.len() == keys@.len(),
            forall|i: int| 0 <= i < keys@.len() ==> #[trigger] results@[i] == visible(self@, keys@[i]),
    {
        if keys.len() == 0 {
            return Vec::new();
        }
        BulkGetOp::new(keys).execute(self)
    }

    /// Inserts or updates one entry.  The put is refused for the tombstone
    /// value, and for want of a slot when the key is not visible and every
    /// slot of the slab is in use.
    pub fn put(&mut self, key: u32, value: u32) -> (r: Result<(), GpuMapError>)
        requires
            old(self).wf(),
        ensures
            final(self).wf(),
            final(self).spec_capacity() == old(self).spec_capacity(),
            sorted(final(self)@),
            final(self)@.len() <= final(self).spec_capacity(),
            final(self)@ == put_result(
                old(self)@,
                old(self).spec_capacity(),
                seq![KvEntry { key, value }],
            ),
            r == if value == TOMBSTONE_VALUE {
                Err::<(), GpuMapError>(GpuMapError::TombstoneReserved { value: TOMBSTONE_VALUE })
            } else if visible(old(self)@, key) is None && old(self)@.len() + 1 > old(
                self,
            ).spec_capacity() {
                Err::<(), GpuMapError>(
                    GpuMapError::CapacityExceeded {
                        capacity: old(self).spec_capacity(),
                        requested: clip((old(self)@.len() + 1) as int),
                    },
                )
            } else {
                Ok(())
            },
            r is Ok ==> final(self)@ == upsert(old(self)@, KvEntry { key, value }),
            r is Err ==> final(self)@ == old(self)@,
    {
        let mut batch: Vec<KvEntry> = Vec::new();
        batch.push(KvEntry { key, value });
        proof {
            assert(batch@ =~= seq![KvEntry { key, value }]);
            lemma_single_put(self@, self.spec_capacity(), KvEntry { key, value });
        }
        self.bulk_put(batch.as_slice())
    }

    /// The value visible under `key`.
    pub fn get(&self, key: u32) -> (r: Option<u32>)
        requires
            self.wf(),
        ensures
            r == visible(self@, key),
    {
        let mut keys: Vec<u32> = Vec::new();
        keys.push(key);
        let results: Vec<Option<u32>> = self.bulk_get(keys.as_slice());
        results[0]
    }

    /// Deletes every key of `keys`: its entry stays in the slab as a
    /// tombstone.  Keys that are not stored, and an empty `keys`, change
    /// nothing.
    pub fn bulk_delete(&mut self, keys: &[u32])
        requires
            old(self).wf(),
        ensures
            final(self).wf(),
            final(self).spec_capacity() == old(self).spec_capacity(),
            sorted(final(self)@),
            final(self)@.len() == old(self)@.len(),
            final(self)@ == delete_all(old(self)@, keys@),
    {
        proof {
            lemma_delete_all(self@, keys@);
            assert(keys_of(tombstones_of(keys@)) =~= keys@);
        }
        if keys.len() == 0 {
            assert(delete_all(self@, keys@) =~= self@);
            return ;
        }
        BulkDeleteOp::new(keys).execute(self)
    }

    /// Deletes one key.
    pub fn delete(&mut self, key: u32)
        requires
            old(self).wf(),
        ensures
            final(self).wf(),
            final(self).spec_capacity() == old(self).spec_capacity(),
            sorted(final(self)@),
            final(self)@.len() == old(self)@.len(),
            final(self)@ == delete_all(old(self)@, seq![key]),
    {
        let mut keys: Vec<u32> = Vec::new();
        keys.push(key);
        assert(keys@ =~= seq![key]);
        self.bulk_delete(keys.as_slice())
    }

    /// The visible entries with keys in `[from_key, to_key)`, ascending by
    /// key.  Empty when `from_key >= to_key`.
    pub fn range(&self, from_key: u32, to_key: u32) -> (entries: Vec<KvEntry>)
        requires
            self.wf(),
        ensures
            entries@ == range_of(self@, from_key, to_key),
            sorted(entries@),
    {
        proof {
            law_range_ascending(self@, from_key, to_key);
        }
        self.range_scan_pipeline.execute(&self.slab, from_key, to_key)
    }
}

} // verus!
