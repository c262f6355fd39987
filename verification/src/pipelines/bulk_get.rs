//! Point lookups: one binary search of the slab per key.

use vstd::prelude::*;
use crate::data::{KvEntry, ResultEntry, TOMBSTONE_VALUE};
use crate::gpu_array::GpuArray;
use crate::model::{is_lower_bound, lemma_lookup_lower_bound, lemma_lower_bound_unique, lookup,
    lower_bound, sorted, visible};

verus! {

/// Binary search over the first `len` slots of `slab` for the smallest index
/// whose key is not less than `key`.
pub fn lower_bound_search(slab: &Vec<KvEntry>, len: u32, key: u32) -> (lo: u32)
    requires
        len <= slab@.len(),
        sorted(slab@.take(len as int)),
    ensures
        lo <= len,
        lo == lower_bound(slab@.take(len as int), key),
        is_lower_bound(slab@.take(len as int), key, lo as int),
{
    let ghost s = slab@.take(len as int);
    let mut lo: u32 = 0;
    let mut hi: u32 = len;
    while lo < hi
        invariant
            lo <= hi <= len,
            len <= slab@.len(),
            s == slab@.take(len as int),
            sorted(s),
            forall|i: int| 0 <= i < lo ==> (#[trigger] s[i]).key < key,
            forall|i: int| hi <= i < len ==> (#[trigger] s[i]).key >= key,
        decreases hi - lo,
    {
        let mid: u32 = lo + (hi - lo) / 2;
        let mid_key: u32 = slab[mid as usize].key;
        assert(s[mid as int] == slab@[mid as int]);
        if mid_key < key {
            assert forall|i: int| 0 <= i < mid + 1 implies (#[trigger] s[i]).key < key by {
                if i < mid {
                    assert(s[i].key < s[mid as int].key);
                }
            }
            lo = mid + 1;
        } else {
            assert forall|i: int| mid <= i < len implies (#[trigger] s[i]).key >= key by {
                if i > mid {
                    assert(s[mid as int].key < s[i].key);
                }
            }
            hi = mid;
        }
    }
    proof {
        lemma_lookup_lower_bound(s, key);
        lemma_lower_bound_unique(s, key, lo as int, lower_bound(s, key));
    }
    lo
}

/// One lookup invocation: searches the slab for `key` and reports the value
/// with the found flag set, or an absent record when the key is missing or
/// its entry is a tombstone.
pub fn search(slab: &Vec<KvEntry>, len: u32, key: u32) -> (r: ResultEntry)
    requires
        len <= slab@.len(),
        sorted(slab@.take(len as int)),
    ensures
        r.to_option_spec() == visible(slab@.take(len as int), key),
        r.found == if visible(slab@.take(len as int), key) is Some { 1u32 } else { 0u32 },
        r.value == match visible(slab@.take(len as int), key) {
            Some(v) => v,
            None => 0u32,
        },
        r._pad@ == seq![0u32, 0u32],
{
    let lo: u32 = lower_bound_search(slab, len, key);
    proof {
        lemma_lookup_lower_bound(slab@.take(len as int), key);
    }
    if lo < len && slab[lo as usize].key == key {
        let value: u32 = slab[lo as usize].value;
        if value == TOMBSTONE_VALUE {
            ResultEntry::absent()
        } else {
            ResultEntry::present(value)
        }
    } else {
        ResultEntry::absent()
    }
}

/// Reads the records of a lookup batch as the caller-visible results.
pub fn decode_results(records: &Vec<ResultEntry>) -> (results: Vec<Option<u32>>)
    ensures
        results@.len() == records@.len(),
        forall|i: int| 0 <= i < records@.len() ==> #[trigger] results@[i] == records@[i].to_option_spec(),
{
    let mut results: Vec<Option<u32>> = Vec::new();
    let mut i: usize = 0;
    while i < records.len()
        invariant
            i <= records@.len(),
            results@.len() == i,
            forall|j: int| 0 <= j < i ==> #[trigger] results@[j] == records@[j].to_option_spec(),
        decreases records@.len() - i,
    {
        results.push(records[i].to_option());
        i = i + 1;
    }
    results
}

/// The lookup pipeline.
pub struct BulkGetPipeline {}

impl BulkGetPipeline {
    /// The pipeline; it holds no state of its own.
    pub fn new() -> (p: Self) {
        BulkGetPipeline {}
    }

    /// Looks up every key of `keys` in the slab: the result at each position
    /// is the value stored under that key, or `None` when the key is missing
    /// or deleted.  An empty `keys` gives an empty result.
    pub fn execute(&self, slab: &GpuArray<KvEntry>, keys: &[u32]) -> (results: Vec<Option<u32>>)
        requires
            slab.wf(),
            slab.readable(),
            sorted(slab.entries()),
        ensures
            results@.len() == keys@.len(),
            forall|i: int| 0 <= i < keys@.len() ==> #[trigger] results@[i] == visible(slab.entries(), keys@[i]),
    {
        if keys.len() == 0 {
            return Vec::new();
        }
        let mut records: Vec<ResultEntry> = Vec::new();
        let mut i: usize = 0;
        while i < keys.len()
            invariant
                i <= keys@.len(),
                slab.wf(),
                slab.readable(),
                sorted(slab.entries()),
                records@.len() == i,
                forall|j: int| 0 <= j < i ==> (#[trigger] records@[j]).to_option_spec() == visible(slab.entries(), keys@[j]),
            decreases keys@.len() - i,
        {
            let r: ResultEntry = search(&slab.buffer, slab.len, keys[i]);
            records.push(r);
            i = i + 1;
        }
        decode_results(&records)
    }
}

} // verus!
