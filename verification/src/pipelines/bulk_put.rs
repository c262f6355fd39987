//! Batch insert: sort the batch, collapse equal keys so that the last write
//! wins, and merge the result with the slab in one monotone pass.

use vstd::prelude::*;
use crate::data::{DedupParams, InputMeta, KvEntry, MergeMeta};
use crate::gpu_array::{overwrite_prefix, GpuArray, GpuStorage};
use crate::model::{ascending, dedup, has_key, lemma_dedup, lemma_lookup_index, lemma_put_all,
    lemma_put_all_same_writes, lemma_sorted_unique, lookup, overlay, put_all, sorted};
use crate::pipelines::sort::{lemma_stable_sorted, sort_entries, stable_sorted, MAX_BATCH};

verus! {

/// The dedup stage, one serial invocation: walks the first `params.len`
/// slots of `data` and compacts them in place, writing an entry over the
/// previous one when their keys are equal and behind it otherwise.  Returns
/// the record with the number of slots that remain.
pub fn dedup_entries(data: &mut Vec<KvEntry>, params: DedupParams) -> (meta: MergeMeta)
    requires
        params.len <= old(data)@.len(),
        ascending(old(data)@.take(params.len as int)),
    ensures
        final(data)@.len() == old(data)@.len(),
        meta.len <= params.len,
        final(data)@.take(meta.len as int) == dedup(old(data)@.take(params.len as int)),
        forall|i: int| params.len <= i < old(data)@.len() ==> final(data)@[i] == old(data)@[i],
        meta._pad@ == seq![0u32, 0u32, 0u32],
{
    let len: u32 = params.len;
    let ghost src = data@.take(len as int);
    let mut write_idx: u32 = 0;
    let mut prev_key: u32 = 0;
    let mut i: u32 = 0;
    while i < len
        invariant
            i <= len,
            len <= data@.len(),
            data@.len() == old(data)@.len(),
            src == old(data)@.take(len as int),
            ascending(src),
            write_idx <= i,
            i > 0 ==> write_idx > 0,
            write_idx > 0 ==> prev_key == data@[write_idx - 1].key,
            data@.take(write_idx as int) == dedup(src.take(i as int)),
            forall|x: int| i <= x < data@.len() ==> data@[x] == old(data)@[x],
        decreases len - i,
    {
        let entry: KvEntry = data[i as usize];
        proof {
            assert(src.take(i + 1).drop_last() == src.take(i as int));
            assert(src.take(i + 1).last() == entry);
            assert(ascending(src.take(i as int))) by {
                assert forall|a: int, b: int| 0 <= a < b < i implies src.take(i as int)[a].key
                    <= src.take(i as int)[b].key by {
                    assert(src[a].key <= src[b].key);
                }
            }
            lemma_dedup(src.take(i as int));
        }
        let ghost before = data@;
        let ghost d = dedup(src.take(i as int));
        if write_idx == 0 {
            data.set(0, entry);
            prev_key = entry.key;
            write_idx = 1;
            assert(data@.take(1) == d.push(entry));
        } else if entry.key == prev_key {
            data.set((write_idx - 1) as usize, entry);
            assert(d.last().key == entry.key);
            assert(data@.take(write_idx as int) == d.drop_last().push(entry));
        } else {
            data.set(write_idx as usize, entry);
            prev_key = entry.key;
            assert(before.take(write_idx as int).push(entry) == data@.take(write_idx + 1));
            write_idx = write_idx + 1;
        }
        i = i + 1;
    }
    assert(src.take(len as int) == src);
    let meta = MergeMeta { len: write_idx, _pad: [0; 3] };
    assert(meta._pad@ =~= seq![0u32, 0u32, 0u32]);
    meta
}

/// The merge stage, one serial invocation: merges the first `slab_len` slots
/// of `slab` with the first `input.len` slots of `batch` into a fresh output.
/// Both are strictly ascending by key; where a key stands in both, the
/// entry of the batch is written and the entry of the slab is dropped.
pub fn merge_entries(slab: &Vec<KvEntry>, slab_len: u32, batch: &Vec<KvEntry>, input: InputMeta) -> (out:
    Vec<KvEntry>)
    requires
        slab_len <= slab@.len(),
        input.len <= batch@.len(),
        sorted(slab@.take(slab_len as int)),
        sorted(batch@.take(input.len as int)),
    ensures
        out@ == put_all(slab@.take(slab_len as int), batch@.take(input.len as int)),
        sorted(out@),
        forall|k: u32| #[trigger]
            lookup(out@, k) == overlay(
                slab@.take(slab_len as int),
                batch@.take(input.len as int),
                k,
            ),
{
    let input_len: u32 = input.len;
    let ghost a = slab@.take(slab_len as int);
    let ghost b = batch@.take(input_len as int);
    let mut out: Vec<KvEntry> = Vec::new();
    let mut i: u32 = 0;
    let mut j: u32 = 0;
    while i < slab_len || j < input_len
        invariant
            i <= slab_len <= slab@.len(),
            j <= input_len <= batch@.len(),
            a == slab@.take(slab_len as int),
            b == batch@.take(input_len as int),
            sorted(a),
            sorted(b),
            sorted(out@),
            forall|x: int| 0 <= x < out@.len() && i < slab_len ==> (#[trigger] out@[x]).key < a[i as int].key,
            forall|x: int| 0 <= x < out@.len() && j < input_len ==> (#[trigger] out@[x]).key < b[j as int].key,
            forall|x: int| 0 <= x < j && i < slab_len ==> (#[trigger] b[x]).key < a[i as int].key,
            forall|x: int| 0 <= x < i && j < input_len ==> (#[trigger] a[x]).key < b[j as int].key,
            forall|k: u32| #[trigger]
                lookup(out@, k) == overlay(a.take(i as int), b.take(j as int), k),
        decreases (slab_len - i) + (input_len - j),
    {
        let ghost out0 = out@;
        let ghost ai = a.take(i as int);
        let ghost bj = b.take(j as int);
        let take_slab: bool = if i < slab_len && j < input_len {
            slab[i as usize].key < batch[j as usize].key
        } else {
            i < slab_len
        };
        if take_slab {
            // the slab entry is the smaller, or the batch is exhausted
            let e: KvEntry = slab[i as usize];
            assert(e == a[i as int]);
            out.push(e);
            proof {
                let ai1 = a.take(i + 1);
                assert(ai1.drop_last() == ai);
                assert(ai1.last() == e);
                assert(out@.drop_last() == out0);
                lemma_lookup_index(bj, e.key);
                if has_key(bj, e.key) {
                    let x = choose|x: int| 0 <= x < bj.len() && (#[trigger] bj[x]).key == e.key;
                    assert(b[x].key < a[i as int].key);
                }
                assert forall|k: u32| #[trigger] lookup(out@, k) == overlay(ai1, bj, k) by {
                    assert(lookup(out0, k) == overlay(ai, bj, k));
                }
                assert forall|x: int, y: int| 0 <= x < y < out@.len() implies out@[x].key
                    < out@[y].key by {
                    if y < out0.len() {
                        assert(out0[x].key < out0[y].key);
                    } else {
                        assert(out0[x].key < a[i as int].key);
                    }
                }
                if i + 1 < slab_len {
                    assert(a[i as int].key < a[i + 1].key);
                    assert forall|x: int| 0 <= x < out@.len() implies (#[trigger] out@[x]).key
                        < a[i + 1].key by {
                        if x < out0.len() {
                            assert(out0[x].key < a[i as int].key);
                        }
                    }
                    assert forall|x: int| 0 <= x < j implies (#[trigger] b[x]).key < a[i + 1].key by {
                        assert(b[x].key < a[i as int].key);
                    }
                }
            }
            i = i + 1;
        } else {
            // the batch entry is written; a slab entry with the same key is dropped
            let e: KvEntry = batch[j as usize];
            assert(e == b[j as int]);
            let same: bool = i < slab_len && slab[i as usize].key == e.key;
            out.push(e);
            proof {
                let bj1 = b.take(j + 1);
                assert(bj1.drop_last() == bj);
                assert(bj1.last() == e);
                assert(out@.drop_last() == out0);
                assert forall|x: int, y: int| 0 <= x < y < out@.len() implies out@[x].key
                    < out@[y].key by {
                    if y < out0.len() {
                        assert(out0[x].key < out0[y].key);
                    } else {
                        assert(out0[x].key < b[j as int].key);
                    }
                }
                if j + 1 < input_len {
                    assert(b[j as int].key < b[j + 1].key);
                    assert forall|x: int| 0 <= x < out@.len() implies (#[trigger] out@[x]).key
                        < b[j + 1].key by {
                        if x < out0.len() {
                            assert(out0[x].key < b[j as int].key);
                        }
                    }
                }
                if same {
                    let ai1 = a.take(i + 1);
                    assert(ai1.drop_last() == ai);
                    assert(ai1.last() == a[i as int]);
                    assert forall|k: u32| #[trigger] lookup(out@, k) == overlay(ai1, bj1, k) by {
                        assert(lookup(out0, k) == overlay(ai, bj, k));
                    }
                    if i + 1 < slab_len {
                        assert(a[i as int].key < a[i + 1].key);
                        assert forall|x: int| 0 <= x < out@.len() implies (#[trigger] out@[x]).key
                            < a[i + 1].key by {
                            if x < out0.len() {
                                assert(out0[x].key < a[i as int].key);
                            }
                        }
                        assert forall|x: int| 0 <= x < j + 1 implies (#[trigger] b[x]).key < a[i
                            + 1].key by {
                            if x < j {
                                assert(b[x].key < a[i as int].key);
                            }
                        }
                    }
                    if j + 1 < input_len {
                        assert forall|x: int| 0 <= x < i + 1 implies (#[trigger] a[x]).key < b[j
                            + 1].key by {
                            if x < i {
                                assert(a[x].key < b[j as int].key);
                            }
                        }
                    }
                } else {
                    assert forall|k: u32| #[trigger] lookup(out@, k) == overlay(ai, bj1, k) by {
                        assert(lookup(out0, k) == overlay(ai, bj, k));
                    }
                    if j + 1 < input_len {
                        assert forall|x: int| 0 <= x < i implies (#[trigger] a[x]).key < b[j
                            + 1].key by {
                            assert(a[x].key < b[j as int].key);
                        }
                    }
                }
            }
            if same {
                i = i + 1;
            }
            j = j + 1;
        }
    }
    proof {
        assert(a.take(slab_len as int) == a);
        assert(b.take(input_len as int) == b);
        lemma_put_all(a, b);
        assert forall|k: u32| lookup(out@, k) == lookup(put_all(a, b), k) by {
            assert(lookup(out@, k) == overlay(a, b, k));
            assert(lookup(put_all(a, b), k) == overlay(a, b, k));
        }
        lemma_sorted_unique(out@, put_all(a, b));
    }
    out
}

/// The batch-insert pipeline.
pub struct BulkPutPipeline {}

impl BulkPutPipeline {
    /// The pipeline; it holds no state of its own.
    pub fn new() -> (p: Self) {
        BulkPutPipeline {}
    }

    /// Merges the batch that stands in the first `entries_len` slots of
    /// `input` into the slab and returns the new slab length.
    ///
    /// The slab buffer then holds what writing the batch entry by entry would
    /// have left: sorted, each key of the batch with the value of its last
    /// entry in the batch, every other key as before.  The length of the slab
    /// is not touched: the caller sets it to the returned length.
    pub fn execute(
        &self,
        slab: &mut GpuArray<KvEntry>,
        input: &mut GpuArray<KvEntry>,
        merge: &mut GpuArray<KvEntry>,
        merge_meta: &mut GpuStorage<MergeMeta>,
        entries_len: u32,
    ) -> (new_len: u32)
        requires
            old(slab).wf(),
            old(slab).readable(),
            sorted(old(slab).entries()),
            old(input).wf(),
            entries_len <= old(input).buffer@.len(),
            entries_len <= MAX_BATCH,
            old(merge).wf(),
            old(merge).capacity == old(slab).capacity,
            put_all(old(slab).entries(), old(input).buffer@.take(entries_len as int)).len() <= old(
                slab,
            ).capacity,
        ensures
            final(slab).wf(),
            final(slab).capacity == old(slab).capacity,
            final(slab).len == old(slab).len,
            new_len <= final(slab).buffer@.len(),
            final(slab).buffer@.take(new_len as int) == put_all(
                old(slab).entries(),
                old(input).buffer@.take(entries_len as int),
            ),
            final(input).wf(),
            final(input).capacity == old(input).capacity,
            final(merge).wf(),
            final(merge).capacity == old(merge).capacity,
            final(merge_meta).value is Some,
            final(merge_meta).value->0.len == new_len,
            final(merge_meta).value->0._pad@ == seq![0u32, 0u32, 0u32],
            final(slab).meta == old(slab).meta,
            final(input).meta == old(input).meta,
            final(input).len == old(input).len,
            final(input).buffer@.len() == old(input).buffer@.len(),
            forall|i: int|
                entries_len <= i < old(input).buffer@.len() ==> final(input).buffer@[i] == old(
                    input,
                ).buffer@[i],
            final(merge).meta == old(merge).meta,
            final(merge).len == old(merge).len,
    {
        let ghost batch = input.buffer@.take(entries_len as int);
        let ghost before = slab.entries();
        self.run_sort_step(input, entries_len);
        let ghost ordered = input.buffer@.take(entries_len as int);
        proof {
            lemma_stable_sorted(batch, ordered);
        }
        let dedup_len: u32 = self.run_dedup_step(input, entries_len, merge_meta);
        proof {
            lemma_dedup(ordered);
            assert forall|k: u32| lookup(dedup(ordered), k) == lookup(batch, k) by {
                assert(lookup(dedup(ordered), k) == lookup(ordered, k));
                assert(lookup(ordered, k) == lookup(batch, k));
            }
            lemma_put_all_same_writes(before, dedup(ordered), batch);
        }
        self.run_merge_step(slab, input, merge, merge_meta, dedup_len)
    }

    /// The sort stage: sorts the first `len` slots of the input buffer by key,
    /// keeping the batch order among equal keys.
    pub fn run_sort_step(&self, input: &mut GpuArray<KvEntry>, len: u32)
        requires
            old(input).wf(),
            len <= old(input).buffer@.len(),
            len <= MAX_BATCH,
        ensures
            final(input).wf(),
            final(input).capacity == old(input).capacity,
            final(input).len == old(input).len,
            final(input).buffer@.len() == old(input).buffer@.len(),
            stable_sorted(
                old(input).buffer@.take(len as int),
                final(input).buffer@.take(len as int),
            ),
            forall|i: int|
                len <= i < old(input).buffer@.len() ==> final(input).buffer@[i] == old(
                    input,
                ).buffer@[i],
            final(input).meta == old(input).meta,
    {
        sort_entries(&mut input.buffer, len);
    }

    /// The dedup stage: collapses equal keys of the sorted batch in place, writes the
    /// remaining length into the length record and returns it.
    pub fn run_dedup_step(
        &self,
        input: &mut GpuArray<KvEntry>,
        len: u32,
        merge_meta: &mut GpuStorage<MergeMeta>,
    ) -> (dedup_len: u32)
        requires
            old(input).wf(),
            len <= old(input).buffer@.len(),
            ascending(old(input).buffer@.take(len as int)),
        ensures
            final(input).wf(),
            final(input).capacity == old(input).capacity,
            final(input).len == old(input).len,
            final(input).buffer@.len() == old(input).buffer@.len(),
            dedup_len <= len,
            final(input).buffer@.take(dedup_len as int) == dedup(old(input).buffer@.take(len as int)),
            forall|i: int|
                len <= i < old(input).buffer@.len() ==> final(input).buffer@[i] == old(
                    input,
                ).buffer@[i],
            final(input).meta == old(input).meta,
            final(merge_meta).value is Some,
            final(merge_meta).value->0.len == dedup_len,
            final(merge_meta).value->0._pad@ == seq![0u32, 0u32, 0u32],
    {
        let params = DedupParams { len, _pad: [0; 3] };
        let meta: MergeMeta = dedup_entries(&mut input.buffer, params);
        merge_meta.write(meta);
        meta.len
    }

    /// The merge stage: merges the slab with the first `dedup_len` slots of the input
    /// buffer into the merge buffer, copies the merge buffer over the slab
    /// buffer, writes the merged length into the length record and returns it.
    pub fn run_merge_step(
        &self,
        slab: &mut GpuArray<KvEntry>,
        input: &GpuArray<KvEntry>,
        merge: &mut GpuArray<KvEntry>,
        merge_meta: &mut GpuStorage<MergeMeta>,
        dedup_len: u32,
    ) -> (merge_len: u32)
        requires
            old(slab).wf(),
            old(slab).readable(),
            sorted(old(slab).entries()),
            dedup_len <= input.buffer@.len(),
            sorted(input.buffer@.take(dedup_len as int)),
            old(merge).wf(),
            old(merge).capacity == old(slab).capacity,
            put_all(old(slab).entries(), input.buffer@.take(dedup_len as int)).len() <= old(
                slab,
            ).capacity,
        ensures
            final(slab).wf(),
            final(slab).capacity == old(slab).capacity,
            final(slab).len == old(slab).len,
            merge_len <= final(slab).buffer@.len(),
            final(slab).buffer@.take(merge_len as int) == put_all(
                old(slab).entries(),
                input.buffer@.take(dedup_len as int),
            ),
            final(merge).wf(),
            final(merge).capacity == old(merge).capacity,
            final(merge).len == old(merge).len,
            final(merge).meta == old(merge).meta,
            final(merge).buffer@ == overwrite_prefix(
                old(merge).buffer@,
                put_all(old(slab).entries(), input.buffer@.take(dedup_len as int)),
            ),
            final(slab).buffer@ == overwrite_prefix(old(slab).buffer@, final(merge).buffer@),
            final(slab).meta == old(slab).meta,
            final(merge_meta).value is Some,
            final(merge_meta).value->0.len == merge_len,
            final(merge_meta).value->0._pad@ == seq![0u32, 0u32, 0u32],
    {
        let input_meta = InputMeta { len: dedup_len, _pad: [0; 3] };
        let out: Vec<KvEntry> = merge_entries(&slab.buffer, slab.len, &input.buffer, input_meta);
        let merge_len: u32 = out.len() as u32;
        let ghost merge_before = merge.buffer@;
        let ghost slab_before = slab.buffer@;
        merge.write(out.as_slice());
        let record = MergeMeta { len: merge_len, _pad: [0; 3] };
        assert(record._pad@ =~= seq![0u32, 0u32, 0u32]);
        merge_meta.write(record);
        slab.copy_from(merge);
        proof {
            assert(merge.buffer@ == overwrite_prefix(merge_before, out@));
            assert(merge.buffer@.take(merge_len as int) =~= out@);
            assert(slab.buffer@ == overwrite_prefix(slab_before, merge.buffer@));
            assert(slab.buffer@.take(merge_len as int) =~= out@);
        }
        merge_len
    }
}

} // verus!
