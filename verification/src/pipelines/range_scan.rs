//! Range scans: two binary searches bound the window of the slab, which is
//! copied out and stripped of tombstones.

use vstd::prelude::*;
use crate::data::{KvEntry, RangeMeta, RangeParams, TOMBSTONE_VALUE};
use crate::gpu_array::GpuArray;
use crate::model::{is_lower_bound, lemma_range_empty, lemma_range_window, live_pred, lower_bound,
    range_of, sorted};
use crate::pipelines::bulk_get::lower_bound_search;

verus! {

/// The range invocation: the lower bounds of both ends of the interval in
/// the first `len` slots of `slab`.  An empty slab gives the window `[0, 0)`.
pub fn range_bounds(slab: &Vec<KvEntry>, len: u32, params: RangeParams) -> (meta: RangeMeta)
    requires
        len <= slab@.len(),
        sorted(slab@.take(len as int)),
    ensures
        meta.start == lower_bound(slab@.take(len as int), params.from_key),
        meta.end == lower_bound(slab@.take(len as int), params.to_key),
        is_lower_bound(slab@.take(len as int), params.from_key, meta.start as int),
        is_lower_bound(slab@.take(len as int), params.to_key, meta.end as int),
        meta._pad@ == seq![0u32, 0u32],
{
    let mut start: u32 = 0;
    let mut end: u32 = 0;
    if len > 0 {
        start = lower_bound_search(slab, len, params.from_key);
        end = lower_bound_search(slab, len, params.to_key);
    }
    let meta = RangeMeta { start, end, _pad: [0; 2] };
    assert(meta._pad@ =~= seq![0u32, 0u32]);
    meta
}

/// The slots `[start, end)` of `slab`, as a buffer copy reads them back.
pub fn copy_window(slab: &Vec<KvEntry>, start: u32, end: u32) -> (window: Vec<KvEntry>)
    requires
        start <= end <= slab@.len(),
    ensures
        window@ == slab@.subrange(start as int, end as int),
{
    let mut window: Vec<KvEntry> = Vec::new();
    let mut i: u32 = start;
    while i < end
        invariant
            start <= i <= end <= slab@.len(),
            window@ == slab@.subrange(start as int, i as int),
        decreases end - i,
    {
        window.push(slab[i as usize]);
        assert(window@ =~= slab@.subrange(start as int, i + 1));
        i = i + 1;
    }
    assert(window@ =~= slab@.subrange(start as int, end as int));
    window
}

/// The entries of `entries` that are not tombstones, in order.
pub fn filter_live(entries: &Vec<KvEntry>) -> (live: Vec<KvEntry>)
    ensures
        live@ == entries@.filter(live_pred()),
{
    let mut live: Vec<KvEntry> = Vec::new();
    let mut i: usize = 0;
    proof {
        reveal(Seq::filter);
        assert(entries@.take(0).filter(live_pred()) =~= Seq::<KvEntry>::empty());
    }
    while i < entries.len()
        invariant
            i <= entries@.len(),
            live@ == entries@.take(i as int).filter(live_pred()),
        decreases entries@.len() - i,
    {
        let e: KvEntry = entries[i];
        proof {
            entries@.take(i as int).lemma_filter_push(e, live_pred());
            assert(entries@.take(i as int).push(e) =~= entries@.take(i + 1));
        }
        if e.value != TOMBSTONE_VALUE {
            live.push(e);
        }
        i = i + 1;
    }
    assert(entries@.take(entries@.len() as int) =~= entries@);
    live
}

/// The range-scan pipeline.
pub struct RangeScanPipeline {}

impl RangeScanPipeline {
    /// The pipeline; it holds no state of its own.
    pub fn new() -> (p: Self) {
        RangeScanPipeline {}
    }

    /// The entries with keys in `[from_key, to_key)`, ascending by key,
    /// without tombstones.  Empty when the interval is empty or inverted,
    /// when the slab is empty, and when no stored key lies in the interval.
    pub fn execute(&self, slab: &GpuArray<KvEntry>, from_key: u32, to_key: u32) -> (entries: Vec<
        KvEntry,
    >)
        requires
            slab.wf(),
            slab.readable(),
            sorted(slab.entries()),
        ensures
            entries@ == range_of(slab.entries(), from_key, to_key),
    {
        let ghost s = slab.entries();
        if from_key >= to_key || slab.len == 0 {
            proof {
                if from_key >= to_key {
                    lemma_range_empty(s, from_key, to_key);
                } else {
                    assert(s =~= Seq::<KvEntry>::empty());
                    reveal(Seq::filter);
                }
            }
            return Vec::new();
        }
        let params = RangeParams { from_key, to_key, _pad: [0; 2] };
        let meta: RangeMeta = range_bounds(&slab.buffer, slab.len, params);
        proof {
            if meta.start > meta.end {
                assert(s[meta.end as int].key >= to_key);
                assert(s[meta.end as int].key < from_key);
            }
            lemma_range_window(s, from_key, to_key, meta.start as int, meta.end as int);
        }
        if meta.end <= meta.start {
            proof {
                assert(s.subrange(meta.start as int, meta.end as int) =~= Seq::<KvEntry>::empty());
                reveal(Seq::filter);
            }
            return Vec::new();
        }
        let window: Vec<KvEntry> = copy_window(&slab.buffer, meta.start, meta.end);
        assert(window@ =~= s.subrange(meta.start as int, meta.end as int));
        filter_live(&window)
    }
}

} // verus!
