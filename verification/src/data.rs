//! The records shared between the host and the compute stages.
//!
//! Every record is a sequence of 32-bit words in declaration order; metadata
//! records are padded to 16 bytes.

use vstd::prelude::*;

verus! {

/// The value that marks an entry as logically deleted.  It can never be stored
/// by an insert, lookups report it as absent, and range scans skip it.
pub const TOMBSTONE_VALUE: u32 = 0xFFFF_FFFF;

/// The key of the entries that pad a batch to a power of two before sorting.
pub const SENTINEL_KEY: u32 = 0xFFFF_FFFF;

/// Invocations per workgroup of the search stages.
pub const WORKGROUP_SIZE: u32 = 64;

/// One key-value pair: eight bytes, key first.
#[derive(Clone, Copy, Debug, Default, PartialEq, Eq, Structural)]
pub struct KvEntry {
    pub key: u32,
    pub value: u32,
}

impl KvEntry {
    /// The entry that marks `key` as deleted.
    pub fn tombstone(key: u32) -> (e: KvEntry)
        ensures
            e.key == key,
            e.value == TOMBSTONE_VALUE,
    {
        KvEntry { key, value: TOMBSTONE_VALUE }
    }
}

/// The outcome of one lookup as a search invocation writes it: the stored
/// value and a flag that is nonzero when the key was found alive.
#[derive(Clone, Copy, Debug, Default)]
pub struct ResultEntry {
    pub value: u32,
    pub found: u32,
    pub _pad: [u32; 2],
}

impl ResultEntry {
    /// What a lookup that produced this record reports to the caller.
    pub open spec fn to_option_spec(self) -> Option<u32> {
        if self.found == 0 || self.value == TOMBSTONE_VALUE {
            None
        } else {
            Some(self.value)
        }
    }

    /// The record of a key that was not found alive.
    pub fn absent() -> (r: ResultEntry)
        ensures
            r.value == 0,
            r.found == 0,
            r._pad@ == seq![0u32, 0u32],
            r.to_option_spec() == None::<u32>,
    {
        let r = ResultEntry { value: 0, found: 0, _pad: [0; 2] };
        assert(r._pad@ =~= seq![0u32, 0u32]);
        r
    }

    /// The record of a key found alive with `value`.
    pub fn present(value: u32) -> (r: ResultEntry)
        ensures
            r.value == value,
            r.found == 1,
            r._pad@ == seq![0u32, 0u32],
    {
        let r = ResultEntry { value, found: 1, _pad: [0; 2] };
        assert(r._pad@ =~= seq![0u32, 0u32]);
        r
    }

    /// Reads the record as the caller-visible result: a record that is
    /// not flagged as found, or that carries the tombstone, is absent.
    pub fn to_option(&self) -> (r: Option<u32>)
        ensures
            r == self.to_option_spec(),
    {
        if self.found == 0 || self.value == TOMBSTONE_VALUE {
            None
        } else {
            Some(self.value)
        }
    }
}

/// Length and capacity of the slab, as the compute stages see them.
#[derive(Clone, Copy, Debug, Default)]
pub struct SlabMeta {
    pub len: u32,
    pub capacity: u32,
    pub _pad: [u32; 2],
}

impl SlabMeta {
    /// The length record of an array of `capacity` slots of which `new_len`
    /// are in use: the length is clamped to the capacity, the padding words
    /// are zero.
    pub fn clamped(new_len: u32, capacity: u32) -> (m: SlabMeta)
        ensures
            m.len == if new_len <= capacity {
                new_len
            } else {
                capacity
            },
            m.capacity == capacity,
            m._pad@ == seq![0u32, 0u32],
    {
        let len: u32 = if new_len <= capacity {
            new_len
        } else {
            capacity
        };
        let m = SlabMeta { len, capacity, _pad: [0; 2] };
        assert(m._pad@ =~= seq![0u32, 0u32]);
        m
    }
}

/// Number of keys handed to a search stage.
#[derive(Clone, Copy, Debug, Default)]
pub struct KeysMeta {
    pub len: u32,
    pub _pad: [u32; 3],
}

/// Number of entries of the pending batch.
#[derive(Clone, Copy, Debug, Default)]
pub struct InputMeta {
    pub len: u32,
    pub _pad: [u32; 3],
}

/// Length that the dedup stage and the merge stage report.
#[derive(Clone, Copy, Debug, Default)]
pub struct MergeMeta {
    pub len: u32,
    pub _pad: [u32; 3],
}

/// Parameters of one compare-exchange pass of the sorting network.
#[derive(Clone, Copy, Debug, Default)]
pub struct SortParams {
    pub k: u32,
    pub j: u32,
    pub len: u32,
    pub _pad: u32,
}

/// Parameters of the dedup stage.
#[derive(Clone, Copy, Debug, Default)]
pub struct DedupParams {
    pub len: u32,
    pub _pad: [u32; 3],
}

/// The half-open key interval of a range scan.
#[derive(Clone, Copy, Debug, Default)]
pub struct RangeParams {
    pub from_key: u32,
    pub to_key: u32,
    pub _pad: [u32; 2],
}

/// The slab positions that bound a range scan.
#[derive(Clone, Copy, Debug, Default)]
pub struct RangeMeta {
    pub start: u32,
    pub end: u32,
    pub _pad: [u32; 2],
}

/// Number of workgroups that cover `items` invocations.
pub fn workgroup_count(items: u32) -> (groups: u32)
    ensures
        groups * WORKGROUP_SIZE >= items,
        (groups - 1) * WORKGROUP_SIZE < items,
        items == 0 ==> groups == 0,
{
    let whole: u32 = items / WORKGROUP_SIZE;
    if items % WORKGROUP_SIZE == 0 {
        whole
    } else {
        whole + 1
    }
}

} // verus!
