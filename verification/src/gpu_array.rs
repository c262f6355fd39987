//! The slab container: a fixed-capacity array of records with its length
//! record, and a single-record storage cell.
//!
//! Only the slots that have been written are held.  The slots from the
//! written extent up to the capacity are unspecified and are never read.

use vstd::prelude::*;
use crate::data::SlabMeta;

verus! {

/// `data` laid over the start of `old`: the slots behind `data` keep what
/// they held.
pub open spec fn overwrite_prefix<T>(old: Seq<T>, data: Seq<T>) -> Seq<T> {
    if data.len() >= old.len() {
        data
    } else {
        data + old.skip(data.len() as int)
    }
}

/// A fixed-capacity array with a length, mirrored into a length record.
pub struct GpuArray<T> {
    /// The slots written so far, from slot 0.
    pub buffer: Vec<T>,
    /// The length record as the compute stages see it.
    pub meta: SlabMeta,
    /// Number of slots; fixed at construction.
    pub capacity: u32,
    /// Number of slots in use.
    pub len: u32,
}

impl<T: Copy> GpuArray<T> {
    /// The written extent and the length stay within the capacity, and the
    /// length record mirrors length and capacity.
    pub open spec fn wf(&self) -> bool {
        &&& self.buffer@.len() <= self.capacity
        &&& self.len <= self.capacity
        &&& self.meta.len == self.len
        &&& self.meta.capacity == self.capacity
    }

    /// Every slot below the length has been written.
    pub open spec fn readable(&self) -> bool {
        self.len <= self.buffer@.len()
    }

    /// The slots in use.
    pub open spec fn entries(&self) -> Seq<T> {
        self.buffer@.take(self.len as int)
    }

    /// An empty array of `capacity` slots.
    pub fn new(capacity: u32) -> (array: Self)
        ensures
            array.wf(),
            array.readable(),
            array.capacity == capacity,
            array.len == 0,
            array.buffer@ == Seq::<T>::empty(),
            array.entries() == Seq::<T>::empty(),
            array.meta.len == 0,
            array.meta.capacity == capacity,
            array.meta._pad@ == seq![0u32, 0u32],
    {
        GpuArray { buffer: Vec::new(), meta: SlabMeta::clamped(0, capacity), capacity, len: 0 }
    }

    /// The written slots.
    pub fn buffer(&self) -> (b: &Vec<T>)
        ensures
            b@ == self.buffer@,
    {
        &self.buffer
    }

    /// The length record.
    pub fn meta_buffer(&self) -> (m: SlabMeta)
        ensures
            m == self.meta,
    {
        self.meta
    }

    /// The configured capacity.
    pub fn capacity(&self) -> (c: u32)
        ensures
            c == self.capacity,
    {
        self.capacity
    }

    /// Number of slots in use.
    pub fn len(&self) -> (n: u32)
        ensures
            n == self.len,
    {
        self.len
    }

    /// Sets the length to `new_len`, clamped to the capacity, and mirrors it
    /// into the length record.
    pub fn update_len(&mut self, new_len: u32)
        requires
            old(self).wf(),
        ensures
            final(self).wf(),
            final(self).len == if new_len <= old(self).capacity {
                new_len
            } else {
                old(self).capacity
            },
            final(self).capacity == old(self).capacity,
            final(self).buffer@ == old(self).buffer@,
            final(self).meta.len == final(self).len,
            final(self).meta.capacity == old(self).capacity,
            final(self).meta._pad@ == seq![0u32, 0u32],
    {
        let meta: SlabMeta = SlabMeta::clamped(new_len, self.capacity);
        self.len = meta.len;
        self.meta = meta;
    }

    /// Copies `data` to the start of the array.  The length is not changed,
    /// and an empty `data` changes nothing.
    pub fn write(&mut self, data: &[T])
        requires
            old(self).wf(),
            data@.len() <= old(self).capacity,
        ensures
            final(self).wf(),
            final(self).buffer@ == overwrite_prefix(old(self).buffer@, data@),
            final(self).len == old(self).len,
            final(self).capacity == old(self).capacity,
            final(self).meta == old(self).meta,
    {
        let n: usize = data.len();
        let mut i: usize = 0;
        while i < n
            invariant
                n == data@.len(),
                i <= n,
                n <= self.capacity,
                self.capacity == old(self).capacity,
                self.len == old(self).len,
                self.meta == old(self).meta,
                self.buffer@ == overwrite_prefix(old(self).buffer@, data@.take(i as int)),
            decreases n - i,
        {
            let ghost before = self.buffer@;
            if i < self.buffer.len() {
                self.buffer.set(i, data[i]);
            } else {
                self.buffer.push(data[i]);
            }
            proof {
                let o = old(self).buffer@;
                let d0 = data@.take(i as int);
                let d1 = data@.take(i + 1);
                assert(self.buffer@ =~= overwrite_prefix(o, d1));
            }
            i = i + 1;
        }
        assert(data@.take(n as int) =~= data@);
    }

    /// Copies every written slot of `source` over this array, as a copy of
    /// the whole buffer does.  The length is not changed.
    pub fn copy_from(&mut self, source: &GpuArray<T>)
        requires
            old(self).wf(),
            source.wf(),
            source.capacity == old(self).capacity,
        ensures
            final(self).wf(),
            final(self).buffer@ == overwrite_prefix(old(self).buffer@, source.buffer@),
            final(self).len == old(self).len,
            final(self).capacity == old(self).capacity,
            final(self).meta == old(self).meta,
    {
        self.write(source.buffer.as_slice());
    }
}

/// A storage cell for one record, unwritten until the first `write`.
pub struct GpuStorage<T> {
    pub value: Option<T>,
}

impl<T: Copy> GpuStorage<T> {
    /// An unwritten cell.
    pub fn new() -> (cell: Self)
        ensures
            cell.value == None::<T>,
    {
        GpuStorage { value: None }
    }

    /// The record, if one was written.
    pub fn buffer(&self) -> (v: Option<T>)
        ensures
            v == self.value,
    {
        self.value
    }

    /// Stores `record`.
    pub fn write(&mut self, record: T)
        ensures
            final(self).value == Some(record),
    {
        self.value = Some(record);
    }
}

} // verus!
