//! Laws of the map: what holds of every slab, every batch and every
//! sequence of operations.
//!
//! Each law is stated over the model of the slab, the same functions in
//! which the operations of the map state their results.

use vstd::prelude::*;
use crate::data::{KvEntry, TOMBSTONE_VALUE};
use crate::error::GpuMapError;
use crate::model::{clip, delete_all, first_repeat, has_duplicate, has_key, has_tombstone, keys_of,
    lemma_delete_all, lemma_lookup_index, lemma_put_all, lemma_put_counts, lemma_range_empty,
    lemma_sorted_unique, live_count, lookup, net_new, overlay, put_all, put_error, put_result,
    range_of, range_pred, sorted, visible, visible_count};

verus! {

/// One mutating operation of the map.
pub enum MapOp {
    /// A batch insert.
    Put(Seq<KvEntry>),
    /// A batch delete.
    Delete(Seq<u32>),
}

/// The slab after one operation.
pub open spec fn apply(s: Seq<KvEntry>, capacity: u32, op: MapOp) -> Seq<KvEntry> {
    match op {
        MapOp::Put(batch) => put_result(s, capacity, batch),
        MapOp::Delete(keys) => delete_all(s, keys),
    }
}

/// The slab of a map with `capacity` slots after the operations `ops`,
/// starting from the empty map.
pub open spec fn replay(capacity: u32, ops: Seq<MapOp>) -> Seq<KvEntry>
    decreases ops.len(),
{
    if ops.len() == 0 {
        Seq::empty()
    } else {
        apply(replay(capacity, ops.drop_last()), capacity, ops.last())
    }
}

/// The value that the most recent accepted put wrote under `k`, unless a
/// later delete named `k`; `None` when there is no such write.
pub open spec fn last_write(capacity: u32, ops: Seq<MapOp>, k: u32) -> Option<u32>
    decreases ops.len(),
{
    if ops.len() == 0 {
        None
    } else {
        let earlier = ops.drop_last();
        match ops.last() {
            MapOp::Put(batch) => if put_error(replay(capacity, earlier), capacity, batch) is None
                && lookup(batch, k) is Some {
                lookup(batch, k)
            } else {
                last_write(capacity, earlier, k)
            },
            MapOp::Delete(keys) => if keys.contains(k) {
                None
            } else {
                last_write(capacity, earlier, k)
            },
        }
    }
}

/// The values that an accepted batch writes are no tombstones.
pub proof fn lemma_batch_values(batch: Seq<KvEntry>, k: u32)
    requires
        !has_tombstone(batch),
    ensures
        lookup(batch, k) is Some ==> lookup(batch, k)->0 != TOMBSTONE_VALUE,
{
    lemma_lookup_index(batch, k);
    if lookup(batch, k) is Some {
        let i = choose|i: int|
            0 <= i < batch.len() && (#[trigger] batch[i]).key == k && batch[i].value == lookup(
                batch,
                k,
            )->0;
        assert(batch[i].value != TOMBSTONE_VALUE);
    }
}

/// Every operation keeps the slab strictly ascending by key, so that no key
/// is stored twice; a put keeps it within the capacity.
pub proof fn law_slab_stays_sorted(s: Seq<KvEntry>, capacity: u32, op: MapOp)
    requires
        sorted(s),
        s.len() <= capacity,
    ensures
        sorted(apply(s, capacity, op)),
        apply(s, capacity, op).len() <= capacity,
{
    match op {
        MapOp::Put(batch) => {
            lemma_put_all(s, batch);
            if put_error(s, capacity, batch) is None && batch.len() > 0 {
                lemma_no_repeat_distinct(batch);
                lemma_put_counts(s, batch);
            }
        },
        MapOp::Delete(keys) => {
            lemma_delete_all(s, keys);
        },
    }
}

/// A batch in which no two entries share a key has pairwise distinct keys.
pub proof fn lemma_no_repeat_distinct(batch: Seq<KvEntry>)
    requires
        !has_duplicate(batch),
    ensures
        keys_of(batch).no_duplicates(),
{
    assert forall|x: int| 0 <= x < batch.len() implies !#[trigger] crate::model::repeats_at(
        batch,
        x,
    ) by {
        if crate::model::repeats_at(batch, x) {
            lemma_least_repeat(batch, x);
        }
    }
    crate::model::lemma_no_duplicate(batch);
}

/// Where some position repeats an earlier key, there is a first such
/// position.
pub proof fn lemma_least_repeat(batch: Seq<KvEntry>, x: int)
    requires
        0 <= x < batch.len(),
        crate::model::repeats_at(batch, x),
    ensures
        has_duplicate(batch),
    decreases x,
{
    if forall|y: int| 0 <= y < x ==> !#[trigger] crate::model::repeats_at(batch, y) {
        assert(crate::model::is_first_repeat(batch, x));
    } else {
        let y = choose|y: int| 0 <= y < x && #[trigger] crate::model::repeats_at(batch, y);
        lemma_least_repeat(batch, y);
    }
}

/// After any sequence of operations on a fresh map, a lookup of `k` returns
/// the value that the most recent accepted put wrote under `k`, unless a
/// later delete named `k`, and nothing otherwise.
pub proof fn law_get_reflects_history(capacity: u32, ops: Seq<MapOp>, k: u32)
    ensures
        sorted(replay(capacity, ops)),
        replay(capacity, ops).len() <= capacity,
        visible(replay(capacity, ops), k) == last_write(capacity, ops, k),
    decreases ops.len(),
{
    if ops.len() == 0 {
    } else {
        let earlier = ops.drop_last();
        let s = replay(capacity, earlier);
        law_get_reflects_history(capacity, earlier, k);
        law_slab_stays_sorted(s, capacity, ops.last());
        match ops.last() {
            MapOp::Put(batch) => {
                if put_error(s, capacity, batch) is None {
                    lemma_put_all(s, batch);
                    assert(lookup(put_all(s, batch), k) == overlay(s, batch, k));
                    if batch.len() > 0 {
                        lemma_batch_values(batch, k);
                    }
                }
            },
            MapOp::Delete(keys) => {
                lemma_delete_all(s, keys);
                assert(visible(delete_all(s, keys), k) == if keys.contains(k) {
                    None
                } else {
                    visible(s, k)
                });
            },
        }
    }
}

/// What an accepted put wrote is what a lookup returns, whether the key was
/// absent, live or a tombstone before; every key that the batch does not
/// name is seen as before.
pub proof fn law_put_then_get(s: Seq<KvEntry>, capacity: u32, batch: Seq<KvEntry>, k: u32)
    requires
        sorted(s),
        put_error(s, capacity, batch) is None,
    ensures
        visible(put_result(s, capacity, batch), k) == match lookup(batch, k) {
            Some(v) => Some(v),
            None => visible(s, k),
        },
{
    lemma_put_all(s, batch);
    assert(lookup(put_all(s, batch), k) == overlay(s, batch, k));
    if batch.len() > 0 {
        lemma_batch_values(batch, k);
    }
}

/// A deleted key is not visible, and every other key is seen as before.
pub proof fn law_delete_then_get(s: Seq<KvEntry>, keys: Seq<u32>, k: u32)
    requires
        sorted(s),
    ensures
        visible(delete_all(s, keys), k) == if keys.contains(k) {
            None
        } else {
            visible(s, k)
        },
{
    lemma_delete_all(s, keys);
}

/// A range scan of an empty or inverted interval is empty.
pub proof fn law_empty_range(s: Seq<KvEntry>, from: u32, to: u32)
    requires
        from >= to,
    ensures
        range_of(s, from, to) == Seq::<KvEntry>::empty(),
{
    lemma_range_empty(s, from, to);
}

/// A range scan reports the slab entries with a key in the interval that are
/// no tombstones, each once, ascending by key.
pub proof fn law_range_ascending(s: Seq<KvEntry>, from: u32, to: u32)
    requires
        sorted(s),
    ensures
        sorted(range_of(s, from, to)),
        forall|i: int|
            0 <= i < s.len() && from <= (#[trigger] s[i]).key < to && s[i].value
                != TOMBSTONE_VALUE ==> range_of(s, from, to).contains(s[i]),
        forall|j: int|
            0 <= j < range_of(s, from, to).len() ==> {
                let e = #[trigger] range_of(s, from, to)[j];
                from <= e.key < to && e.value != TOMBSTONE_VALUE && s.contains(e)
            },
    decreases s.len(),
{
    let p = range_pred(from, to);
    let r = range_of(s, from, to);
    reveal(Seq::filter);
    if s.len() == 0 {
    } else {
        let t = s.drop_last();
        let e = s.last();
        assert(sorted(t)) by {
            assert forall|i: int, j: int| 0 <= i < j < t.len() implies t[i].key < t[j].key by {
                assert(s[i].key < s[j].key);
            }
        }
        law_range_ascending(t, from, to);
        let rt = range_of(t, from, to);
        assert forall|j: int| 0 <= j < r.len() implies {
            let x = #[trigger] r[j];
            from <= x.key < to && x.value != TOMBSTONE_VALUE && s.contains(x)
        } by {
            if j < rt.len() {
                assert(r[j] == rt[j]);
                assert(t.contains(rt[j]));
                let i = choose|i: int| 0 <= i < t.len() && t[i] == rt[j];
                assert(s[i] == rt[j]);
            } else {
                assert(r[j] == e);
                assert(s[s.len() - 1] == e);
            }
        }
        assert forall|i: int|
            0 <= i < s.len() && from <= (#[trigger] s[i]).key < to && s[i].value
                != TOMBSTONE_VALUE implies r.contains(s[i]) by {
            if i < t.len() {
                assert(t[i] == s[i]);
                assert(rt.contains(t[i]));
                let j = choose|j: int| 0 <= j < rt.len() && rt[j] == t[i];
                assert(r[j] == s[i]);
            } else {
                assert(r[r.len() - 1] == s[i]);
            }
        }
        assert forall|a: int, b: int| 0 <= a < b < r.len() implies r[a].key < r[b].key by {
            if b < rt.len() {
                assert(rt[a].key < rt[b].key);
            } else {
                assert(r[b] == e);
                assert(r[a] == rt[a]);
                assert(t.contains(rt[a]));
                let i = choose|i: int| 0 <= i < t.len() && t[i] == rt[a];
                assert(s[i].key < s[s.len() - 1].key);
            }
        }
    }
}

/// Putting a batch twice leaves the map as putting it once.
pub proof fn law_put_idempotent(s: Seq<KvEntry>, capacity: u32, batch: Seq<KvEntry>)
    requires
        sorted(s),
    ensures
        put_result(put_result(s, capacity, batch), capacity, batch) == put_result(
            s,
            capacity,
            batch,
        ),
        put_error(s, capacity, batch) is None ==> put_error(
            put_result(s, capacity, batch),
            capacity,
            batch,
        ) is None,
{
    if put_error(s, capacity, batch) is None {
        let s1 = put_all(s, batch);
        lemma_put_all(s, batch);
        if batch.len() > 0 {
            lemma_no_repeat_distinct(batch);
            lemma_put_counts(s, batch);
            assert forall|i: int| 0 <= i < keys_of(batch).len() implies visible(
                s1,
                #[trigger] keys_of(batch)[i],
            ) is Some by {
                let k = batch[i].key;
                assert(lookup(s1, k) == overlay(s, batch, k));
                lemma_lookup_index(batch, k);
                assert(has_key(batch, k));
                lemma_batch_values(batch, k);
            }
            lemma_all_visible(s1, keys_of(batch));
            assert(net_new(s1, batch) == 0);
            assert(put_error(s1, capacity, batch) is None);
        }
        lemma_put_all(s1, batch);
        assert forall|k: u32| lookup(put_all(s1, batch), k) == lookup(s1, k) by {
            assert(lookup(put_all(s1, batch), k) == overlay(s1, batch, k));
            assert(lookup(s1, k) == overlay(s, batch, k));
        }
        lemma_sorted_unique(put_all(s1, batch), s1);
    }
}

/// Where every key of a list is visible, the count of visible keys is the
/// length of the list.
pub proof fn lemma_all_visible(s: Seq<KvEntry>, keys: Seq<u32>)
    requires
        forall|i: int| 0 <= i < keys.len() ==> visible(s, #[trigger] keys[i]) is Some,
    ensures
        visible_count(s, keys) == keys.len(),
    decreases keys.len(),
{
    if keys.len() > 0 {
        let u = keys.drop_last();
        assert forall|i: int| 0 <= i < u.len() implies visible(s, #[trigger] u[i]) is Some by {
            assert(visible(s, keys[i]) is Some);
        }
        lemma_all_visible(s, u);
        assert(visible(s, keys[keys.len() - 1]) is Some);
    }
}

/// Putting one entry twice leaves the map as putting it once.
pub proof fn law_single_put_idempotent(s: Seq<KvEntry>, capacity: u32, key: u32, value: u32)
    requires
        sorted(s),
    ensures
        put_result(
            put_result(s, capacity, seq![KvEntry { key, value }]),
            capacity,
            seq![KvEntry { key, value }],
        ) == put_result(s, capacity, seq![KvEntry { key, value }]),
{
    law_put_idempotent(s, capacity, seq![KvEntry { key, value }]);
}

/// A batch in which two entries share a key is refused with the first
/// repeated key, unless it is refused for a tombstone value, and the map is
/// left as it was.
pub proof fn law_duplicate_key_rejected(s: Seq<KvEntry>, capacity: u32, batch: Seq<KvEntry>)
    requires
        has_duplicate(batch),
        !has_tombstone(batch),
    ensures
        put_error(s, capacity, batch) == Some(
            GpuMapError::DuplicateKey { key: batch[first_repeat(batch)].key },
        ),
        put_result(s, capacity, batch) == s,
{
    let j = choose|j: int| #[trigger] crate::model::is_first_repeat(batch, j);
    assert(batch.len() > 0);
}

/// Every refused put leaves the map as it was.
pub proof fn law_refused_put_changes_nothing(s: Seq<KvEntry>, capacity: u32, batch: Seq<KvEntry>)
    requires
        put_error(s, capacity, batch) is Some,
    ensures
        put_result(s, capacity, batch) == s,
{
}

/// Put, delete, put again: the key is visible with the value of the second
/// put.  The second put needs a slot of its own, because the tombstone of
/// a deleted key is not visible: the law holds where the slab has one left
/// after the first put.
pub proof fn law_delete_then_put(
    s: Seq<KvEntry>,
    capacity: u32,
    key: u32,
    first: u32,
    second: u32,
)
    requires
        sorted(s),
        s.len() <= capacity,
        second != TOMBSTONE_VALUE,
        put_result(s, capacity, seq![KvEntry { key, value: first }]).len() < capacity,
    ensures
        visible(
            delete_all(put_result(s, capacity, seq![KvEntry { key, value: first }]), seq![key]),
            key,
        ) == None::<u32>,
        put_error(
            delete_all(put_result(s, capacity, seq![KvEntry { key, value: first }]), seq![key]),
            capacity,
            seq![KvEntry { key, value: second }],
        ) is None,
        visible(
            put_result(
                delete_all(put_result(s, capacity, seq![KvEntry { key, value: first }]), seq![key]),
                capacity,
                seq![KvEntry { key, value: second }],
            ),
            key,
        ) == Some(second),
{
    let e1 = KvEntry { key, value: first };
    let e2 = KvEntry { key, value: second };
    let s1 = put_result(s, capacity, seq![e1]);
    law_slab_stays_sorted(s, capacity, MapOp::Put(seq![e1]));
    let s2 = delete_all(s1, seq![key]);
    lemma_delete_all(s1, seq![key]);
    assert(seq![key][0] == key);
    assert(seq![key].contains(key));
    crate::model::lemma_single_put(s2, capacity, e2);
    law_put_then_get(s2, capacity, seq![e2], key);
    assert(seq![e2].last() == e2);
    assert(lookup(seq![e2], key) == Some(second));
}

/// A put over a tombstone makes the key visible again, with the new value,
/// and takes the slot of the tombstone.  It is accepted where the slab has a
/// slot left, because the tombstone is not visible.
pub proof fn law_put_over_tombstone(s: Seq<KvEntry>, capacity: u32, key: u32, value: u32)
    requires
        sorted(s),
        s.len() < capacity,
        lookup(s, key) == Some(TOMBSTONE_VALUE),
        value != TOMBSTONE_VALUE,
    ensures
        visible(s, key) == None::<u32>,
        put_error(s, capacity, seq![KvEntry { key, value }]) is None,
        visible(put_result(s, capacity, seq![KvEntry { key, value }]), key) == Some(value),
        put_result(s, capacity, seq![KvEntry { key, value }]).len() == s.len(),
{
    let e = KvEntry { key, value };
    crate::model::lemma_single_put(s, capacity, e);
    law_put_then_get(s, capacity, seq![e], key);
    assert(seq![e].last() == e);
    assert(lookup(seq![e], key) == Some(value));
    crate::model::lemma_upsert(s, e);
}

/// The keys of two batches are disjoint.
pub open spec fn disjoint_keys(b1: Seq<KvEntry>, b2: Seq<KvEntry>) -> bool {
    forall|i: int, j: int|
        0 <= i < b1.len() && 0 <= j < b2.len() ==> (#[trigger] b1[i]).key != (#[trigger] b2[j]).key
}

/// A batch that fits beside the slab whatever it holds is accepted exactly
/// when it is well formed, so the state of the slab does not decide.
pub proof fn lemma_roomy_put(s: Seq<KvEntry>, capacity: u32, batch: Seq<KvEntry>)
    requires
        sorted(s),
        s.len() + batch.len() <= capacity,
    ensures
        put_error(s, capacity, batch) is None <==> batch.len() == 0 || (!has_tombstone(batch)
            && !has_duplicate(batch)),
        sorted(put_result(s, capacity, batch)),
        put_result(s, capacity, batch).len() <= s.len() + batch.len(),
{
    lemma_put_all(s, batch);
}

/// Two batches with disjoint keys that fit beside the slab together leave
/// the same slab in either order.
pub proof fn law_batch_union_commutes(
    s: Seq<KvEntry>,
    capacity: u32,
    b1: Seq<KvEntry>,
    b2: Seq<KvEntry>,
)
    requires
        sorted(s),
        disjoint_keys(b1, b2),
        s.len() + b1.len() + b2.len() <= capacity,
    ensures
        put_result(put_result(s, capacity, b1), capacity, b2) == put_result(
            put_result(s, capacity, b2),
            capacity,
            b1,
        ),
{
    lemma_roomy_put(s, capacity, b1);
    lemma_roomy_put(s, capacity, b2);
    let s1 = put_result(s, capacity, b1);
    let s2 = put_result(s, capacity, b2);
    lemma_roomy_put(s1, capacity, b2);
    lemma_roomy_put(s2, capacity, b1);
    let s12 = put_result(s1, capacity, b2);
    let s21 = put_result(s2, capacity, b1);
    let ok1 = put_error(s, capacity, b1) is None;
    let ok2 = put_error(s, capacity, b2) is None;
    assert(ok1 == (put_error(s2, capacity, b1) is None));
    assert(ok2 == (put_error(s1, capacity, b2) is None));
    if ok1 && ok2 {
        lemma_put_all(s, b1);
        lemma_put_all(s, b2);
        lemma_put_all(s1, b2);
        lemma_put_all(s2, b1);
        assert forall|k: u32| lookup(s12, k) == lookup(s21, k) by {
            assert(lookup(s12, k) == overlay(s1, b2, k));
            assert(lookup(s1, k) == overlay(s, b1, k));
            assert(lookup(s21, k) == overlay(s2, b1, k));
            assert(lookup(s2, k) == overlay(s, b2, k));
            lemma_lookup_index(b1, k);
            lemma_lookup_index(b2, k);
            if has_key(b1, k) && has_key(b2, k) {
                let i = choose|i: int| 0 <= i < b1.len() && (#[trigger] b1[i]).key == k;
                let j = choose|j: int| 0 <= j < b2.len() && (#[trigger] b2[j]).key == k;
                assert(b1[i].key != b2[j].key);
            }
        }
        lemma_sorted_unique(s12, s21);
    }
}

/// An empty batch is accepted and changes nothing; an empty delete changes
/// nothing.
pub proof fn law_empty_batches(s: Seq<KvEntry>, capacity: u32)
    ensures
        put_error(s, capacity, Seq::<KvEntry>::empty()) is None,
        put_result(s, capacity, Seq::<KvEntry>::empty()) == s,
        delete_all(s, Seq::<u32>::empty()) == s,
{
    assert(delete_all(s, Seq::<u32>::empty()) =~= s);
}

/// A well-formed batch that fills the slab exactly is accepted; one that
/// needs more than the capacity is refused with `CapacityExceeded`, which
/// names the capacity and the slots that would be needed.
pub proof fn law_capacity_boundary(s: Seq<KvEntry>, capacity: u32, batch: Seq<KvEntry>)
    requires
        batch.len() > 0,
        !has_tombstone(batch),
        !has_duplicate(batch),
    ensures
        s.len() + net_new(s, batch) <= capacity ==> put_error(s, capacity, batch) is None,
        s.len() + net_new(s, batch) > capacity ==> put_error(s, capacity, batch) == Some(
            GpuMapError::CapacityExceeded {
                capacity,
                requested: clip(s.len() + net_new(s, batch)),
            },
        ) && put_result(s, capacity, batch) == s,
{
}

/// A batch with the tombstone value in it is refused with
/// `TombstoneReserved`, and the map is left as it was.
pub proof fn law_tombstone_reserved(s: Seq<KvEntry>, capacity: u32, batch: Seq<KvEntry>)
    requires
        has_tombstone(batch),
    ensures
        put_error(s, capacity, batch) == Some(
            GpuMapError::TombstoneReserved { value: TOMBSTONE_VALUE },
        ),
        put_result(s, capacity, batch) == s,
{
    let i = choose|i: int| 0 <= i < batch.len() && (#[trigger] batch[i]).value == TOMBSTONE_VALUE;
}

/// The visible entries never outnumber the stored ones, which never
/// outnumber the capacity, whatever the operations were.
pub proof fn law_len_within_capacity(capacity: u32, ops: Seq<MapOp>)
    ensures
        live_count(replay(capacity, ops)) <= replay(capacity, ops).len() <= capacity,
{
    law_get_reflects_history(capacity, ops, 0);
    crate::model::lemma_live_count_bound(replay(capacity, ops));
}

} // verus!
