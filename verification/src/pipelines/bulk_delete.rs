//! Deletes: one binary search of the slab per key; a match is marked in
//! place with the tombstone.

use vstd::prelude::*;
use crate::data::{KvEntry, TOMBSTONE_VALUE};
use crate::gpu_array::GpuArray;
use crate::model::{delete_all, lemma_delete_all, lemma_delete_all_push, sorted};
use crate::pipelines::bulk_get::lower_bound_search;

verus! {

/// One delete invocation: searches the first `len` slots of `slab` for `key`
/// and overwrites the value of a match with the tombstone.  A missing key
/// changes nothing.
pub fn delete_entry(slab: &mut Vec<KvEntry>, len: u32, key: u32)
    requires
        len <= old(slab)@.len(),
        sorted(old(slab)@.take(len as int)),
    ensures
        final(slab)@.len() == old(slab)@.len(),
        final(slab)@.take(len as int) == delete_all(old(slab)@.take(len as int), seq![key]),
        forall|i: int| len <= i < old(slab)@.len() ==> final(slab)@[i] == old(slab)@[i],
{
    let ghost s = slab@.take(len as int);
    let lo: u32 = lower_bound_search(slab, len, key);
    if lo < len && slab[lo as usize].key == key {
        slab.set(lo as usize, KvEntry { key, value: TOMBSTONE_VALUE });
    }
    proof {
        let d = delete_all(s, seq![key]);
        let t = slab@.take(len as int);
        assert(seq![key][0] == key);
        assert forall|i: int| 0 <= i < len implies t[i] == d[i] by {
            if s[i].key == key {
                if i < lo {
                    assert(s[i].key < key);
                } else if i > lo {
                    assert(s[lo as int].key >= key);
                    assert(s[lo as int].key < s[i].key);
                }
                assert(seq![key].contains(key));
            } else {
                if seq![key].contains(s[i].key) {
                    let x = choose|x: int| 0 <= x < seq![key].len() && seq![key][x] == s[i].key;
                }
            }
        }
        assert(t =~= d);
    }
}

/// The delete pipeline.
pub struct BulkDeletePipeline {}

impl BulkDeletePipeline {
    /// The pipeline; it holds no state of its own.
    pub fn new() -> (p: Self) {
        BulkDeletePipeline {}
    }

    /// Marks the entry of every key of `keys` as deleted, in place.  Keys and
    /// order of the slab do not change; keys that are not stored, and an
    /// empty `keys`, change nothing.
    pub fn execute(&self, slab: &mut GpuArray<KvEntry>, keys: &[u32])
        requires
            old(slab).wf(),
            old(slab).readable(),
            sorted(old(slab).entries()),
        ensures
            final(slab).wf(),
            final(slab).readable(),
            final(slab).capacity == old(slab).capacity,
            final(slab).len == old(slab).len,
            final(slab).meta == old(slab).meta,
            final(slab).entries() == delete_all(old(slab).entries(), keys@),
            sorted(final(slab).entries()),
            final(slab).buffer@.len() == old(slab).buffer@.len(),
            forall|i: int|
                old(slab).len <= i < old(slab).buffer@.len() ==> final(slab).buffer@[i] == old(
                    slab,
                ).buffer@[i],
    {
        let ghost s0 = slab.entries();
        let len: u32 = slab.len;
        proof {
            assert(delete_all(s0, keys@.take(0)) =~= s0);
            lemma_delete_all(s0, keys@);
        }
        if keys.len() == 0 {
            assert(keys@.take(0) =~= keys@);
            return ;
        }
        let mut i: usize = 0;
        while i < keys.len()
            invariant
                i <= keys@.len(),
                len == slab.len,
                slab.wf(),
                slab.readable(),
                slab.capacity == old(slab).capacity,
                slab.len == old(slab).len,
                slab.meta == old(slab).meta,
                s0 == old(slab).entries(),
                sorted(s0),
                slab.buffer@.take(len as int) == delete_all(s0, keys@.take(i as int)),
                slab.buffer@.len() == old(slab).buffer@.len(),
                forall|x: int|
                    len <= x < old(slab).buffer@.len() ==> slab.buffer@[x] == old(slab).buffer@[x],
            decreases keys@.len() - i,
        {
            proof {
                lemma_delete_all(s0, keys@.take(i as int));
                lemma_delete_all_push(s0, keys@.take(i as int), keys@[i as int]);
                assert(keys@.take(i as int).push(keys@[i as int]) =~= keys@.take(i + 1));
            }
            delete_entry(&mut slab.buffer, len, keys[i]);
            i = i + 1;
        }
        assert(keys@.take(keys@.len() as int) =~= keys@);
    }
}

} // verus!
