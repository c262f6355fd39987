//! The checks that the host makes on a batch before any buffer is touched.

use std::collections::HashSet;
use vstd::prelude::*;
use crate::data::{KvEntry, TOMBSTONE_VALUE};
use crate::error::GpuMapError;
use crate::model::{clip, first_occurrences, first_repeat, found_count, has_duplicate, has_tombstone,
    is_first_repeat, keys_of, lemma_first_occurrences, lemma_first_repeat, lemma_no_duplicate,
    repeats_at};

verus! {

broadcast use vstd::std_specs::hash::group_hash_axioms;

/// Whether some entry of the batch carries the reserved tombstone value.
pub fn find_tombstone(entries: &[KvEntry]) -> (found: bool)
    ensures
        found == has_tombstone(entries@),
{
    let mut i: usize = 0;
    while i < entries.len()
        invariant
            i <= entries@.len(),
            forall|x: int| 0 <= x < i ==> (#[trigger] entries@[x]).value != TOMBSTONE_VALUE,
        decreases entries@.len() - i,
    {
        if entries[i].value == TOMBSTONE_VALUE {
            return true;
        }
        i = i + 1;
    }
    false
}

/// The first key of the batch that an earlier entry carries too, or `None`
/// when the keys are pairwise distinct.
pub fn find_duplicate_key(entries: &[KvEntry]) -> (dup: Option<u32>)
    ensures
        dup is Some <==> has_duplicate(entries@),
        dup is Some ==> dup->0 == entries@[first_repeat(entries@)].key,
        dup is None ==> keys_of(entries@).no_duplicates(),
{
    let mut seen: HashSet<u32> = HashSet::new();
    let mut j: usize = 0;
    while j < entries.len()
        invariant
            j <= entries@.len(),
            forall|k: u32| seen@.contains(k) <==> exists|i: int| 0 <= i < j && (#[trigger] entries@[i]).key == k,
            forall|x: int| 0 <= x < j ==> !#[trigger] repeats_at(entries@, x),
        decreases entries@.len() - j,
    {
        let key: u32 = entries[j].key;
        let fresh: bool = seen.insert(key);
        if !fresh {
            proof {
                assert(repeats_at(entries@, j as int));
                assert(is_first_repeat(entries@, j as int));
                lemma_first_repeat(entries@, j as int);
            }
            return Some(key);
        }
        proof {
            assert(!repeats_at(entries@, j as int)) by {
                if repeats_at(entries@, j as int) {
                    let i = choose|i: int| 0 <= i < j && (#[trigger] entries@[i]).key == entries@[j as int].key;
                }
            }
            assert forall|k: u32| seen@.contains(k) <==> exists|i: int|
                0 <= i < j + 1 && (#[trigger] entries@[i]).key == k by {
                if k == key {
                    assert(entries@[j as int].key == k);
                } else if seen@.contains(k) {
                    let i = choose|i: int| 0 <= i < j && (#[trigger] entries@[i]).key == k;
                    assert(entries@[i].key == k);
                } else {
                    if exists|i: int| 0 <= i < j + 1 && (#[trigger] entries@[i]).key == k {
                        let i = choose|i: int| 0 <= i < j + 1 && (#[trigger] entries@[i]).key == k;
                        assert(i < j);
                    }
                }
            }
        }
        j = j + 1;
    }
    proof {
        lemma_no_duplicate(entries@);
    }
    None
}

/// The keys of the batch, in batch order.
pub fn batch_keys(entries: &[KvEntry]) -> (keys: Vec<u32>)
    ensures
        keys@ == keys_of(entries@),
{
    let mut keys: Vec<u32> = Vec::new();
    let mut i: usize = 0;
    while i < entries.len()
        invariant
            i <= entries@.len(),
            keys@.len() == i,
            forall|x: int| 0 <= x < i ==> #[trigger] keys@[x] == entries@[x].key,
        decreases entries@.len() - i,
    {
        keys.push(entries[i].key);
        i = i + 1;
    }
    assert(keys@ =~= keys_of(entries@));
    keys
}

/// Number of lookups that found a value.
pub fn count_found(results: &Vec<Option<u32>>) -> (n: usize)
    ensures
        n == found_count(results@),
        n <= results@.len(),
{
    let mut n: usize = 0;
    let mut i: usize = 0;
    while i < results.len()
        invariant
            i <= results@.len(),
            n <= i,
            n == found_count(results@.take(i as int)),
        decreases results@.len() - i,
    {
        assert(results@.take(i + 1).drop_last() =~= results@.take(i as int));
        if results[i].is_some() {
            n = n + 1;
        }
        i = i + 1;
    }
    assert(results@.take(results@.len() as int) =~= results@);
    n
}

/// The keys without repetitions: each key once, at its first position.
pub fn unique_keys(keys: &[u32]) -> (uniq: Vec<u32>)
    ensures
        uniq@ == first_occurrences(keys@),
        uniq@.no_duplicates(),
        forall|k: u32| uniq@.contains(k) <==> keys@.contains(k),
{
    let mut seen: HashSet<u32> = HashSet::new();
    let mut uniq: Vec<u32> = Vec::new();
    let mut i: usize = 0;
    while i < keys.len()
        invariant
            i <= keys@.len(),
            forall|k: u32| seen@.contains(k) <==> keys@.take(i as int).contains(k),
            uniq@ == first_occurrences(keys@.take(i as int)),
        decreases keys@.len() - i,
    {
        let key: u32 = keys[i];
        let ghost prefix = keys@.take(i as int);
        let fresh: bool = seen.insert(key);
        proof {
            let next = keys@.take(i + 1);
            assert(next.drop_last() =~= prefix);
            assert(next.last() == key);
            assert(fresh == !prefix.contains(key));
            assert forall|k: u32| seen@.contains(k) <==> next.contains(k) by {
                if next.contains(k) {
                    let x = choose|x: int| 0 <= x < next.len() && next[x] == k;
                    if x < i {
                        assert(prefix[x] == k);
                    }
                }
                if prefix.contains(k) {
                    let x = choose|x: int| 0 <= x < prefix.len() && prefix[x] == k;
                    assert(next[x] == k);
                }
                if k == key {
                    assert(next[i as int] == k);
                }
            }
        }
        if fresh {
            uniq.push(key);
        }
        i = i + 1;
    }
    proof {
        assert(keys@.take(keys@.len() as int) =~= keys@);
        lemma_first_occurrences(keys@);
    }
    uniq
}

/// The checks on the batch alone: an entry with the tombstone value is
/// refused first, then a repeated key.
pub fn validate_batch(entries: &[KvEntry]) -> (r: Result<(), GpuMapError>)
    ensures
        r == if has_tombstone(entries@) {
            Err::<(), GpuMapError>(GpuMapError::TombstoneReserved { value: TOMBSTONE_VALUE })
        } else if has_duplicate(entries@) {
            Err::<(), GpuMapError>(
                GpuMapError::DuplicateKey { key: entries@[first_repeat(entries@)].key },
            )
        } else {
            Ok(())
        },
        r is Ok ==> keys_of(entries@).no_duplicates(),
{
    if find_tombstone(entries) {
        return Err(GpuMapError::TombstoneReserved { value: TOMBSTONE_VALUE });
    }
    match find_duplicate_key(entries) {
        Some(key) => Err(GpuMapError::DuplicateKey { key }),
        None => Ok(()),
    }
}

/// The check on room: of a batch of `batch_len` entries, `found` have keys
/// that are visible already; the others each need a slot beside the
/// `slab_len` slots in use.  Returns the number of those others, or
/// `CapacityExceeded` with the number of slots that would be needed, cut off
/// at the largest 32-bit number.
pub fn check_capacity(slab_len: u32, capacity: u32, batch_len: usize, found: usize) -> (r: Result<
    u32,
    GpuMapError,
>)
    requires
        slab_len <= capacity,
        found <= batch_len,
    ensures
        r == if slab_len + (batch_len - found) > capacity {
            Err::<u32, GpuMapError>(
                GpuMapError::CapacityExceeded {
                    capacity,
                    requested: clip(slab_len + (batch_len - found)),
                },
            )
        } else {
            Ok((batch_len - found) as u32)
        },
{
    let absent: usize = batch_len - found;
    let room: u32 = capacity - slab_len;
    if absent > room as usize {
        let requested: u32 = if absent > (u32::MAX - slab_len) as usize {
            u32::MAX
        } else {
            slab_len + absent as u32
        };
        Err(GpuMapError::CapacityExceeded { capacity, requested })
    } else {
        Ok(absent as u32)
    }
}

} // verus!
