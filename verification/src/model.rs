//! The mathematical model of the slab: a sequence of entries, strictly
//! ascending by key, and what each operation of the map does to it.

use vstd::prelude::*;
use crate::data::{KvEntry, TOMBSTONE_VALUE};
use crate::error::GpuMapError;

verus! {

/// Entries are strictly ascending by key: sorted, and no key occurs twice.
pub open spec fn sorted(s: Seq<KvEntry>) -> bool {
    forall|i: int, j: int| 0 <= i < j < s.len() ==> s[i].key < s[j].key
}

/// Some entry of `s` has key `k`.
pub open spec fn has_key(s: Seq<KvEntry>, k: u32) -> bool {
    exists|i: int| 0 <= i < s.len() && (#[trigger] s[i]).key == k
}

/// The value of the last entry of `s` with key `k`, tombstones included.
pub open spec fn lookup(s: Seq<KvEntry>, k: u32) -> Option<u32>
    decreases s.len(),
{
    if s.len() == 0 {
        None
    } else if s.last().key == k {
        Some(s.last().value)
    } else {
        lookup(s.drop_last(), k)
    }
}

/// What a caller sees under key `k`: the stored value unless it is absent or
/// a tombstone.
pub open spec fn visible(s: Seq<KvEntry>, k: u32) -> Option<u32> {
    match lookup(s, k) {
        Some(v) => if v == TOMBSTONE_VALUE { None } else { Some(v) },
        None => None,
    }
}

/// `r` splits `s` into the entries with keys below `k` and the rest.
pub open spec fn is_lower_bound(s: Seq<KvEntry>, k: u32, r: int) -> bool {
    &&& 0 <= r <= s.len()
    &&& forall|i: int| 0 <= i < r ==> (#[trigger] s[i]).key < k
    &&& forall|i: int| r <= i < s.len() ==> (#[trigger] s[i]).key >= k
}

/// The smallest index of a sorted `s` whose key is not less than `k`, or the
/// length of `s` when every key is less.
pub open spec fn lower_bound(s: Seq<KvEntry>, k: u32) -> int
    decreases s.len(),
{
    if s.len() == 0 {
        0
    } else if s.last().key < k {
        s.len() as int
    } else {
        lower_bound(s.drop_last(), k)
    }
}

/// Writes `e` into a sorted slab: over the entry with the same key if there is
/// one, else at the position that keeps the slab sorted.
pub open spec fn upsert(s: Seq<KvEntry>, e: KvEntry) -> Seq<KvEntry> {
    let i = lower_bound(s, e.key);
    if i < s.len() && s[i].key == e.key {
        s.update(i, e)
    } else {
        s.insert(i, e)
    }
}

/// Writes the entries of `batch` into a sorted slab one after the other, so
/// that of two entries with one key the later wins.
pub open spec fn put_all(s: Seq<KvEntry>, batch: Seq<KvEntry>) -> Seq<KvEntry>
    decreases batch.len(),
{
    if batch.len() == 0 {
        s
    } else {
        upsert(put_all(s, batch.drop_last()), batch.last())
    }
}

/// What is stored under `k` once `batch` has been written over `s`.
pub open spec fn overlay(s: Seq<KvEntry>, batch: Seq<KvEntry>, k: u32) -> Option<u32> {
    match lookup(batch, k) {
        Some(v) => Some(v),
        None => lookup(s, k),
    }
}

/// `lookup` finds nothing exactly when no entry has the key, and what it
/// finds is the value of some entry with the key.
pub proof fn lemma_lookup_index(s: Seq<KvEntry>, k: u32)
    ensures
        lookup(s, k) is None <==> !has_key(s, k),
        lookup(s, k) is Some ==> exists|i: int|
            0 <= i < s.len() && (#[trigger] s[i]).key == k && s[i].value == lookup(s, k)->0,
    decreases s.len(),
{
    if s.len() == 0 {
    } else {
        let t = s.drop_last();
        lemma_lookup_index(t, k);
        if s.last().key == k {
            assert(s[s.len() - 1].key == k);
        } else {
            if has_key(t, k) {
                let i = choose|i: int| 0 <= i < t.len() && (#[trigger] t[i]).key == k;
                assert(s[i].key == k);
            }
            if has_key(s, k) {
                let i = choose|i: int| 0 <= i < s.len() && (#[trigger] s[i]).key == k;
                assert(t[i].key == k);
            }
            if lookup(s, k) is Some {
                let i = choose|i: int|
                    0 <= i < t.len() && (#[trigger] t[i]).key == k && t[i].value == lookup(t, k)->0;
                assert(s[i].key == k && s[i].value == lookup(s, k)->0);
            }
        }
    }
}

/// In a sorted slab the entry at index `i` is the one that `lookup` finds
/// under its key.
pub proof fn lemma_lookup_at(s: Seq<KvEntry>, i: int)
    requires
        sorted(s),
        0 <= i < s.len(),
    ensures
        lookup(s, s[i].key) == Some(s[i].value),
    decreases s.len(),
{
    if i == s.len() - 1 {
    } else {
        let t = s.drop_last();
        assert(s[i].key < s[s.len() - 1].key);
        assert(t[i] == s[i]);
        lemma_lookup_at(t, i);
    }
}

/// In a sorted slab `lower_bound` is the split point for the key.
pub proof fn lemma_lower_bound(s: Seq<KvEntry>, k: u32)
    requires
        sorted(s),
    ensures
        is_lower_bound(s, k, lower_bound(s, k)),
    decreases s.len(),
{
    if s.len() == 0 {
    } else if s.last().key < k {
        assert forall|i: int| 0 <= i < s.len() implies (#[trigger] s[i]).key < k by {
            if i < s.len() - 1 {
                assert(s[i].key < s[s.len() - 1].key);
            }
        }
    } else {
        let t = s.drop_last();
        lemma_lower_bound(t, k);
        let r = lower_bound(t, k);
        assert forall|i: int| 0 <= i < r implies (#[trigger] s[i]).key < k by {
            assert(t[i].key < k);
        }
        assert forall|i: int| r <= i < s.len() implies (#[trigger] s[i]).key >= k by {
            if i < t.len() {
                assert(t[i].key >= k);
            }
        }
    }
}

/// A sequence has at most one split point for a key.
pub proof fn lemma_lower_bound_unique(s: Seq<KvEntry>, k: u32, a: int, b: int)
    requires
        is_lower_bound(s, k, a),
        is_lower_bound(s, k, b),
    ensures
        a == b,
{
    if a < b {
        assert(s[a].key < k);
        assert(s[a].key >= k);
    }
    if b < a {
        assert(s[b].key < k);
        assert(s[b].key >= k);
    }
}

/// The key is stored in a sorted slab exactly when the entry at its lower
/// bound carries it.
pub proof fn lemma_lookup_lower_bound(s: Seq<KvEntry>, k: u32)
    requires
        sorted(s),
    ensures
        ({
            let r = lower_bound(s, k);
            &&& is_lower_bound(s, k, r)
            &&& lookup(s, k) == if r < s.len() && s[r].key == k {
                Some(s[r].value)
            } else {
                None::<u32>
            }
        }),
{
    lemma_lower_bound(s, k);
    let r = lower_bound(s, k);
    if r < s.len() && s[r].key == k {
        lemma_lookup_at(s, r);
    } else {
        lemma_lookup_index(s, k);
        if has_key(s, k) {
            let i = choose|i: int| 0 <= i < s.len() && (#[trigger] s[i]).key == k;
            if i < r {
                assert(s[i].key < k);
            } else {
                assert(s[i].key >= k);
                if i > r {
                    assert(s[r].key < s[i].key);
                    assert(s[r].key >= k);
                }
            }
        }
    }
}

/// Writing one entry keeps the slab sorted, stores the entry's value under its
/// key, leaves every other key as it was, and grows the slab by one exactly
/// when the key was not stored before.
pub proof fn lemma_upsert(s: Seq<KvEntry>, e: KvEntry)
    requires
        sorted(s),
    ensures
        sorted(upsert(s, e)),
        forall|k: u32| #[trigger]
            lookup(upsert(s, e), k) == if k == e.key {
                Some(e.value)
            } else {
                lookup(s, k)
            },
        upsert(s, e).len() == s.len() + if lookup(s, e.key) is None {
            1int
        } else {
            0int
        },
{
    lemma_lookup_lower_bound(s, e.key);
    let r = lower_bound(s, e.key);
    let t = upsert(s, e);
    let hit = r < s.len() && s[r].key == e.key;
    // where each entry of `s` lands in `t`
    assert forall|i: int, j: int| 0 <= i < j < t.len() implies t[i].key < t[j].key by {
        if hit {
            let a = if i == r { e } else { s[i] };
            let b = if j == r { e } else { s[j] };
            assert(s[i].key < s[j].key);
        } else {
            if j < r {
                assert(s[i].key < s[j].key);
            } else if j == r {
                assert(s[i].key < e.key);
            } else if i < r {
                assert(s[i].key < s[j - 1].key);
            } else if i == r {
                assert(s[j - 1].key >= e.key);
                assert(s[j - 1].key != e.key) by {
                    if j - 1 > r {
                        assert(s[r].key < s[j - 1].key);
                        assert(s[r].key >= e.key);
                    }
                }
            } else {
                assert(s[i - 1].key < s[j - 1].key);
            }
        }
    }
    assert(t[r] == e);
    lemma_lookup_at(t, r);
    assert forall|k: u32| k != e.key implies #[trigger] lookup(t, k) == lookup(s, k) by {
        lemma_lookup_index(s, k);
        lemma_lookup_index(t, k);
        if has_key(s, k) {
            let i = choose|i: int| 0 <= i < s.len() && (#[trigger] s[i]).key == k;
            lemma_lookup_at(s, i);
            let i2 = if hit || i < r { i } else { i + 1 };
            assert(t[i2] == s[i]);
            lemma_lookup_at(t, i2);
        } else {
            if has_key(t, k) {
                let i = choose|i: int| 0 <= i < t.len() && (#[trigger] t[i]).key == k;
                let i2 = if hit || i < r { i } else { i - 1 };
                assert(s[i2] == t[i]);
                assert(s[i2].key == k);
            }
        }
    }
}

/// Writing a batch keeps the slab sorted, and afterwards each key holds what
/// the last entry of the batch with that key wrote, or what it held before.
pub proof fn lemma_put_all(s: Seq<KvEntry>, batch: Seq<KvEntry>)
    requires
        sorted(s),
    ensures
        sorted(put_all(s, batch)),
        forall|k: u32| #[trigger] lookup(put_all(s, batch), k) == overlay(s, batch, k),
        s.len() <= put_all(s, batch).len() <= s.len() + batch.len(),
    decreases batch.len(),
{
    if batch.len() == 0 {
    } else {
        let b = batch.drop_last();
        lemma_put_all(s, b);
        lemma_upsert(put_all(s, b), batch.last());
        assert forall|k: u32| #[trigger]
            lookup(put_all(s, batch), k) == overlay(s, batch, k) by {
            assert(lookup(put_all(s, b), k) == overlay(s, b, k));
        }
    }
}

/// A sorted slab is determined by what it stores under each key.
pub proof fn lemma_sorted_unique(a: Seq<KvEntry>, b: Seq<KvEntry>)
    requires
        sorted(a),
        sorted(b),
        forall|k: u32| lookup(a, k) == lookup(b, k),
    ensures
        a == b,
    decreases a.len(),
{
    if a.len() == 0 {
        if b.len() > 0 {
            lemma_lookup_at(b, 0);
            assert(lookup(a, b[0].key) == lookup(b, b[0].key));
        }
        assert(a =~= b);
    } else {
        let e = a.last();
        lemma_lookup_at(a, a.len() - 1);
        assert(lookup(b, e.key) == Some(e.value));
        lemma_lookup_index(b, e.key);
        let j = choose|j: int| 0 <= j < b.len() && (#[trigger] b[j]).key == e.key;
        lemma_lookup_at(b, j);
        if j < b.len() - 1 {
            let f = b.last();
            assert(b[j].key < f.key);
            lemma_lookup_at(b, b.len() - 1);
            assert(lookup(a, f.key) == Some(f.value));
            lemma_lookup_index(a, f.key);
            let i = choose|i: int| 0 <= i < a.len() && (#[trigger] a[i]).key == f.key;
            if i < a.len() - 1 {
                assert(a[i].key < a[a.len() - 1].key);
            }
            assert(false);
        }
        assert(b.last() == e);
        let a2 = a.drop_last();
        let b2 = b.drop_last();
        assert forall|k: u32| lookup(a2, k) == lookup(b2, k) by {
            assert(lookup(a, k) == lookup(b, k));
            if k == e.key {
                lemma_lookup_index(a2, k);
                lemma_lookup_index(b2, k);
                if has_key(a2, k) {
                    let i = choose|i: int| 0 <= i < a2.len() && (#[trigger] a2[i]).key == k;
                    assert(a[i].key < a[a.len() - 1].key);
                }
                if has_key(b2, k) {
                    let i = choose|i: int| 0 <= i < b2.len() && (#[trigger] b2[i]).key == k;
                    assert(b[i].key < b[b.len() - 1].key);
                }
            }
        }
        assert(sorted(a2)) by {
            assert forall|i: int, j: int| 0 <= i < j < a2.len() implies a2[i].key < a2[j].key by {
                assert(a[i].key < a[j].key);
            }
        }
        assert(sorted(b2)) by {
            assert forall|i: int, j: int| 0 <= i < j < b2.len() implies b2[i].key < b2[j].key by {
                assert(b[i].key < b[j].key);
            }
        }
        lemma_sorted_unique(a2, b2);
        assert(a =~= a2.push(e));
        assert(b =~= b2.push(e));
    }
}

/// Keys never decrease along `s`; equal keys may stand side by side.
pub open spec fn ascending(s: Seq<KvEntry>) -> bool {
    forall|i: int, j: int| 0 <= i < j < s.len() ==> s[i].key <= s[j].key
}

/// `s` with every run of equal keys collapsed to the last entry of the run.
pub open spec fn dedup(s: Seq<KvEntry>) -> Seq<KvEntry>
    decreases s.len(),
{
    if s.len() == 0 {
        s
    } else {
        let d = dedup(s.drop_last());
        if d.len() > 0 && d.last().key == s.last().key {
            d.drop_last().push(s.last())
        } else {
            d.push(s.last())
        }
    }
}

/// Collapsing the runs of a sequence with ascending keys gives a sorted
/// sequence that stores under every key what the last entry with that key
/// held; it is no longer than the sequence and ends with the same entry.
pub proof fn lemma_dedup(s: Seq<KvEntry>)
    requires
        ascending(s),
    ensures
        sorted(dedup(s)),
        dedup(s).len() <= s.len(),
        s.len() > 0 ==> dedup(s).len() > 0 && dedup(s).last() == s.last(),
        forall|k: u32| #[trigger] lookup(dedup(s), k) == lookup(s, k),
        forall|i: int| 0 <= i < dedup(s).len() ==> has_key(s, (#[trigger] dedup(s)[i]).key),
    decreases s.len(),
{
    if s.len() == 0 {
    } else {
        let t = s.drop_last();
        let e = s.last();
        assert(ascending(t)) by {
            assert forall|i: int, j: int| 0 <= i < j < t.len() implies t[i].key <= t[j].key by {
                assert(s[i].key <= s[j].key);
            }
        }
        lemma_dedup(t);
        let d = dedup(t);
        let r = dedup(s);
        // every key of d is a key of t, hence at most e.key
        assert forall|i: int| 0 <= i < d.len() implies (#[trigger] d[i]).key <= e.key by {
            assert(has_key(t, d[i].key));
            let x = choose|x: int| 0 <= x < t.len() && (#[trigger] t[x]).key == d[i].key;
            assert(s[x].key <= s[s.len() - 1].key);
        }
        if d.len() > 0 && d.last().key == e.key {
            let d0 = d.drop_last();
            assert(r == d0.push(e));
            assert forall|i: int, j: int| 0 <= i < j < r.len() implies r[i].key < r[j].key by {
                if j < d0.len() {
                    assert(d[i].key < d[j].key);
                } else {
                    assert(d[i].key < d[d.len() - 1].key);
                }
            }
            assert forall|k: u32| #[trigger] lookup(r, k) == lookup(s, k) by {
                assert(r.drop_last() == d0);
                assert(lookup(d, k) == lookup(t, k));
                if k != e.key {
                    assert(lookup(r, k) == lookup(d0, k));
                    assert(lookup(d, k) == lookup(d0, k));
                }
            }
            assert forall|i: int| 0 <= i < r.len() implies has_key(s, (#[trigger] r[i]).key) by {
                if i < d0.len() {
                    assert(has_key(t, d[i].key));
                    let x = choose|x: int| 0 <= x < t.len() && (#[trigger] t[x]).key == d[i].key;
                    assert(s[x].key == r[i].key);
                } else {
                    assert(s[s.len() - 1].key == r[i].key);
                }
            }
        } else {
            assert(r == d.push(e));
            assert forall|i: int, j: int| 0 <= i < j < r.len() implies r[i].key < r[j].key by {
                if j < d.len() {
                    assert(d[i].key < d[j].key);
                } else {
                    assert(d[i].key <= e.key);
                    if d[i].key == e.key {
                        assert(d[i].key <= d[d.len() - 1].key) by {
                            if i < d.len() - 1 {
                                assert(d[i].key < d[d.len() - 1].key);
                            }
                        }
                        assert(d[d.len() - 1].key <= e.key);
                    }
                }
            }
            assert forall|k: u32| #[trigger] lookup(r, k) == lookup(s, k) by {
                assert(r.drop_last() == d);
                assert(lookup(d, k) == lookup(t, k));
            }
            assert forall|i: int| 0 <= i < r.len() implies has_key(s, (#[trigger] r[i]).key) by {
                if i < d.len() {
                    assert(has_key(t, d[i].key));
                    let x = choose|x: int| 0 <= x < t.len() && (#[trigger] t[x]).key == d[i].key;
                    assert(s[x].key == r[i].key);
                } else {
                    assert(s[s.len() - 1].key == r[i].key);
                }
            }
        }
    }
}

/// The last entry with a key is the one that `lookup` finds.
pub proof fn lemma_lookup_last(s: Seq<KvEntry>, i: int)
    requires
        0 <= i < s.len(),
        forall|j: int| i < j < s.len() ==> (#[trigger] s[j]).key != s[i].key,
    ensures
        lookup(s, s[i].key) == Some(s[i].value),
    decreases s.len(),
{
    if i < s.len() - 1 {
        let t = s.drop_last();
        assert(s[s.len() - 1].key != s[i].key);
        assert(t[i] == s[i]);
        assert forall|j: int| i < j < t.len() implies (#[trigger] t[j]).key != t[i].key by {
            assert(s[j].key != s[i].key);
        }
        lemma_lookup_last(t, i);
    }
}

/// A key that occurs has a last occurrence.
pub proof fn lemma_last_occurrence(s: Seq<KvEntry>, k: u32) -> (i: int)
    requires
        has_key(s, k),
    ensures
        0 <= i < s.len(),
        s[i].key == k,
        forall|j: int| i < j < s.len() ==> (#[trigger] s[j]).key != k,
    decreases s.len(),
{
    if s.last().key == k {
        s.len() - 1
    } else {
        let t = s.drop_last();
        let x = choose|x: int| 0 <= x < s.len() && (#[trigger] s[x]).key == k;
        assert(t[x].key == k);
        let i = lemma_last_occurrence(t, k);
        assert(s[i] == t[i]);
        assert forall|j: int| i < j < s.len() implies (#[trigger] s[j]).key != k by {
            if j < t.len() {
                assert(t[j].key != k);
            }
        }
        i
    }
}

/// Two batches that write the same value under every key leave the same
/// slab.
pub proof fn lemma_put_all_same_writes(s: Seq<KvEntry>, b1: Seq<KvEntry>, b2: Seq<KvEntry>)
    requires
        sorted(s),
        forall|k: u32| lookup(b1, k) == lookup(b2, k),
    ensures
        put_all(s, b1) == put_all(s, b2),
{
    lemma_put_all(s, b1);
    lemma_put_all(s, b2);
    assert forall|k: u32| lookup(put_all(s, b1), k) == lookup(put_all(s, b2), k) by {
        assert(lookup(put_all(s, b1), k) == overlay(s, b1, k));
        assert(lookup(put_all(s, b2), k) == overlay(s, b2, k));
        assert(lookup(b1, k) == lookup(b2, k));
    }
    lemma_sorted_unique(put_all(s, b1), put_all(s, b2));
}

/// An entry that is not a tombstone.
pub open spec fn live_pred() -> spec_fn(KvEntry) -> bool {
    |e: KvEntry| e.value != TOMBSTONE_VALUE
}

/// An entry that a scan of `[from, to)` reports: its key lies in the
/// interval and it is not a tombstone.
pub open spec fn range_pred(from: u32, to: u32) -> spec_fn(KvEntry) -> bool {
    |e: KvEntry| from <= e.key && e.key < to && e.value != TOMBSTONE_VALUE
}

/// Number of entries of `s` that are not tombstones.
pub open spec fn live_count(s: Seq<KvEntry>) -> nat {
    s.filter(live_pred()).len()
}

/// The entries of `s` with keys in `[from, to)` that are not tombstones, in
/// the order of `s`.
pub open spec fn range_of(s: Seq<KvEntry>, from: u32, to: u32) -> Seq<KvEntry> {
    s.filter(range_pred(from, to))
}

/// `e` as a delete of `keys` leaves it: a tombstone if its key is among
/// them.
pub open spec fn mark_entry(e: KvEntry, keys: Seq<u32>) -> KvEntry {
    if keys.contains(e.key) {
        KvEntry { key: e.key, value: TOMBSTONE_VALUE }
    } else {
        e
    }
}

/// The slab after a delete of `keys`: every entry whose key is among them
/// carries the tombstone, every other entry is as it was.
pub open spec fn delete_all(s: Seq<KvEntry>, keys: Seq<u32>) -> Seq<KvEntry> {
    Seq::new(s.len(), |i: int| mark_entry(s[i], keys))
}

/// Number of positions of `keys` whose key is visible in `s`.
pub open spec fn visible_count(s: Seq<KvEntry>, keys: Seq<u32>) -> nat
    decreases keys.len(),
{
    if keys.len() == 0 {
        0
    } else {
        visible_count(s, keys.drop_last()) + if visible(s, keys.last()) is Some {
            1nat
        } else {
            0nat
        }
    }
}

/// The keys of a batch, in batch order.
pub open spec fn keys_of(batch: Seq<KvEntry>) -> Seq<u32> {
    Seq::new(batch.len(), |i: int| batch[i].key)
}

/// A filter keeps nothing of a sequence in which nothing meets it.
pub proof fn lemma_filter_none(s: Seq<KvEntry>, p: spec_fn(KvEntry) -> bool)
    requires
        forall|i: int| 0 <= i < s.len() ==> !p(#[trigger] s[i]),
    ensures
        s.filter(p) == Seq::<KvEntry>::empty(),
    decreases s.len(),
{
    reveal(Seq::filter);
    if s.len() > 0 {
        let t = s.drop_last();
        assert forall|i: int| 0 <= i < t.len() implies !p(#[trigger] t[i]) by {
            assert(t[i] == s[i]);
        }
        lemma_filter_none(t, p);
        assert(!p(s[s.len() - 1]));
    }
}

/// Two filters that agree on every element of a sequence keep the same.
pub proof fn lemma_filter_agree(
    s: Seq<KvEntry>,
    p: spec_fn(KvEntry) -> bool,
    q: spec_fn(KvEntry) -> bool,
)
    requires
        forall|i: int| 0 <= i < s.len() ==> p(#[trigger] s[i]) == q(s[i]),
    ensures
        s.filter(p) == s.filter(q),
    decreases s.len(),
{
    reveal(Seq::filter);
    if s.len() > 0 {
        let t = s.drop_last();
        assert forall|i: int| 0 <= i < t.len() implies p(#[trigger] t[i]) == q(t[i]) by {
            assert(t[i] == s[i]);
        }
        lemma_filter_agree(t, p, q);
        assert(p(s[s.len() - 1]) == q(s[s.len() - 1]));
    }
}

/// An empty or inverted interval holds nothing.
pub proof fn lemma_range_empty(s: Seq<KvEntry>, from: u32, to: u32)
    requires
        from >= to,
    ensures
        range_of(s, from, to) == Seq::<KvEntry>::empty(),
{
    lemma_filter_none(s, range_pred(from, to));
}

/// In a sorted slab the entries of `[from, to)` stand between the lower
/// bounds of `from` and `to`, so a scan is that window without its
/// tombstones.
pub proof fn lemma_range_window(s: Seq<KvEntry>, from: u32, to: u32, a: int, b: int)
    requires
        is_lower_bound(s, from, a),
        is_lower_bound(s, to, b),
        a <= b,
    ensures
        range_of(s, from, to) == s.subrange(a, b).filter(live_pred()),
{
    let p = range_pred(from, to);
    let front = s.take(a);
    let mid = s.subrange(a, b);
    let back = s.skip(b);
    assert(s =~= (front + mid) + back);
    Seq::filter_distributes_over_add(front + mid, back, p);
    Seq::filter_distributes_over_add(front, mid, p);
    assert forall|i: int| 0 <= i < front.len() implies !p(#[trigger] front[i]) by {
        assert(s[i].key < from);
    }
    lemma_filter_none(front, p);
    assert forall|i: int| 0 <= i < back.len() implies !p(#[trigger] back[i]) by {
        assert(s[b + i].key >= to);
    }
    lemma_filter_none(back, p);
    assert forall|i: int| 0 <= i < mid.len() implies p(#[trigger] mid[i]) == live_pred()(mid[i]) by {
        assert(s[a + i].key >= from);
        assert(s[a + i].key < to);
    }
    lemma_filter_agree(mid, p, live_pred());
    assert(Seq::<KvEntry>::empty() + mid.filter(p) + Seq::<KvEntry>::empty() =~= mid.filter(p));
}

/// A delete keeps the slab sorted and as long as it was; afterwards a key
/// among the deleted ones is not visible, and every other key is as before.
pub proof fn lemma_delete_all(s: Seq<KvEntry>, keys: Seq<u32>)
    requires
        sorted(s),
    ensures
        sorted(delete_all(s, keys)),
        delete_all(s, keys).len() == s.len(),
        forall|k: u32| #[trigger]
            lookup(delete_all(s, keys), k) == match lookup(s, k) {
                Some(v) => Some(if keys.contains(k) { TOMBSTONE_VALUE } else { v }),
                None => None,
            },
        forall|k: u32| #[trigger]
            visible(delete_all(s, keys), k) == if keys.contains(k) {
                None
            } else {
                visible(s, k)
            },
{
    let d = delete_all(s, keys);
    assert forall|i: int, j: int| 0 <= i < j < d.len() implies d[i].key < d[j].key by {
        assert(s[i].key < s[j].key);
    }
    assert forall|k: u32| #[trigger]
        lookup(d, k) == match lookup(s, k) {
            Some(v) => Some(if keys.contains(k) { TOMBSTONE_VALUE } else { v }),
            None => None,
        } by {
        lemma_lookup_index(s, k);
        lemma_lookup_index(d, k);
        if has_key(s, k) {
            let i = choose|i: int| 0 <= i < s.len() && (#[trigger] s[i]).key == k;
            lemma_lookup_at(s, i);
            assert(d[i].key == k);
            lemma_lookup_at(d, i);
        } else {
            if has_key(d, k) {
                let i = choose|i: int| 0 <= i < d.len() && (#[trigger] d[i]).key == k;
                assert(s[i].key == k);
            }
        }
    }
    assert forall|k: u32| #[trigger]
        visible(d, k) == if keys.contains(k) {
            None
        } else {
            visible(s, k)
        } by {
        assert(lookup(d, k) == match lookup(s, k) {
            Some(v) => Some(if keys.contains(k) { TOMBSTONE_VALUE } else { v }),
            None => None,
        });
    }
}

/// Deleting `keys` and then `k` is deleting `keys` with `k` appended.
pub proof fn lemma_delete_all_push(s: Seq<KvEntry>, keys: Seq<u32>, k: u32)
    ensures
        delete_all(delete_all(s, keys), seq![k]) == delete_all(s, keys.push(k)),
{
    let a = delete_all(delete_all(s, keys), seq![k]);
    let b = delete_all(s, keys.push(k));
    assert forall|i: int| 0 <= i < s.len() implies a[i] == b[i] by {
        let e = s[i];
        assert(seq![k][0] == k);
        assert(keys.push(k)[keys.len() as int] == k);
        if keys.contains(e.key) {
            let x = choose|x: int| 0 <= x < keys.len() && keys[x] == e.key;
            assert(keys.push(k)[x] == e.key);
        }
        if keys.push(k).contains(e.key) && e.key != k {
            let x = choose|x: int| 0 <= x < keys.push(k).len() && keys.push(k)[x] == e.key;
            assert(keys[x] == e.key);
        }
        if seq![k].contains(e.key) {
            let x = choose|x: int| 0 <= x < seq![k].len() && seq![k][x] == e.key;
        }
    }
    assert(a =~= b);
}

/// Replacing one entry changes the live count by what the old and the new
/// entry contribute.
pub proof fn lemma_live_count_update(s: Seq<KvEntry>, i: int, e: KvEntry)
    requires
        0 <= i < s.len(),
    ensures
        live_count(s.update(i, e)) + (if s[i].value != TOMBSTONE_VALUE { 1int } else { 0int })
            == live_count(s) + (if e.value != TOMBSTONE_VALUE { 1int } else { 0int }),
{
    let p = live_pred();
    let front = s.take(i);
    let back = s.skip(i + 1);
    assert(s =~= front.push(s[i]) + back);
    assert(s.update(i, e) =~= front.push(e) + back);
    Seq::filter_distributes_over_add(front.push(s[i]), back, p);
    Seq::filter_distributes_over_add(front.push(e), back, p);
    front.lemma_filter_push(s[i], p);
    front.lemma_filter_push(e, p);
}

/// Inserting one entry raises the live count by one unless the entry is a
/// tombstone.
pub proof fn lemma_live_count_insert(s: Seq<KvEntry>, i: int, e: KvEntry)
    requires
        0 <= i <= s.len(),
    ensures
        live_count(s.insert(i, e)) == live_count(s) + (if e.value != TOMBSTONE_VALUE {
            1int
        } else {
            0int
        }),
{
    let p = live_pred();
    let front = s.take(i);
    let back = s.skip(i);
    assert(s =~= front + back);
    assert(s.insert(i, e) =~= front.push(e) + back);
    Seq::filter_distributes_over_add(front, back, p);
    Seq::filter_distributes_over_add(front.push(e), back, p);
    front.lemma_filter_push(e, p);
}

/// An empty slab has no live entry.
pub proof fn lemma_live_count_empty()
    ensures
        live_count(Seq::<KvEntry>::empty()) == 0,
{
    reveal(Seq::filter);
}

/// The live entries are among the entries.
pub proof fn lemma_live_count_bound(s: Seq<KvEntry>)
    ensures
        live_count(s) <= s.len(),
{
    s.lemma_filter_len(live_pred());
}

/// Writing one entry that is no tombstone makes its key visible: the live
/// count grows by one exactly when the key was not visible before.
pub proof fn lemma_upsert_live(s: Seq<KvEntry>, e: KvEntry)
    requires
        sorted(s),
        e.value != TOMBSTONE_VALUE,
    ensures
        live_count(upsert(s, e)) == live_count(s) + if visible(s, e.key) is None {
            1int
        } else {
            0int
        },
{
    lemma_lookup_lower_bound(s, e.key);
    let r = lower_bound(s, e.key);
    if r < s.len() && s[r].key == e.key {
        lemma_live_count_update(s, r, e);
    } else {
        lemma_live_count_insert(s, r, e);
    }
}

/// Marking one key as deleted lowers the live count by one exactly when the
/// key was visible.
pub proof fn lemma_delete_one_live(s: Seq<KvEntry>, k: u32)
    requires
        sorted(s),
    ensures
        live_count(delete_all(s, seq![k])) + (if visible(s, k) is Some { 1int } else { 0int })
            == live_count(s),
{
    lemma_lookup_lower_bound(s, k);
    let r = lower_bound(s, k);
    let d = delete_all(s, seq![k]);
    assert(seq![k][0] == k);
    if r < s.len() && s[r].key == k {
        let t = KvEntry { key: k, value: TOMBSTONE_VALUE };
        assert forall|i: int| 0 <= i < s.len() implies d[i] == s.update(r, t)[i] by {
            if s[i].key == k {
                if i < r {
                    assert(s[i].key < s[r].key);
                } else if i > r {
                    assert(s[r].key < s[i].key);
                }
                assert(seq![k].contains(k));
            } else {
                if seq![k].contains(s[i].key) {
                    let x = choose|x: int| 0 <= x < seq![k].len() && seq![k][x] == s[i].key;
                }
            }
        }
        assert(d =~= s.update(r, t));
        lemma_live_count_update(s, r, t);
    } else {
        lemma_lookup_index(s, k);
        assert forall|i: int| 0 <= i < s.len() implies d[i] == s[i] by {
            if seq![k].contains(s[i].key) {
                let x = choose|x: int| 0 <= x < seq![k].len() && seq![k][x] == s[i].key;
                assert(s[i].key == k);
            }
        }
        assert(d =~= s);
    }
}

/// A delete of pairwise distinct keys lowers the live count by the number of
/// them that were visible.
pub proof fn lemma_delete_all_live(s: Seq<KvEntry>, keys: Seq<u32>)
    requires
        sorted(s),
        keys.no_duplicates(),
    ensures
        live_count(delete_all(s, keys)) + visible_count(s, keys) == live_count(s),
        visible_count(s, keys) <= live_count(s),
    decreases keys.len(),
{
    if keys.len() == 0 {
        assert forall|i: int| 0 <= i < s.len() implies delete_all(s, keys)[i] == s[i] by {
            if keys.contains(s[i].key) {
                let x = choose|x: int| 0 <= x < keys.len() && keys[x] == s[i].key;
            }
        }
        assert(delete_all(s, keys) =~= s);
    } else {
        let u = keys.drop_last();
        let k = keys.last();
        assert(u.no_duplicates()) by {
            assert forall|i: int, j: int| 0 <= i < u.len() && 0 <= j < u.len() && i != j implies u[i]
                != u[j] by {
                assert(keys[i] != keys[j]);
            }
        }
        lemma_delete_all_live(s, u);
        let t = delete_all(s, u);
        lemma_delete_all(s, u);
        lemma_delete_all_push(s, u, k);
        assert(u.push(k) =~= keys);
        lemma_delete_one_live(t, k);
        assert(!u.contains(k)) by {
            if u.contains(k) {
                let x = choose|x: int| 0 <= x < u.len() && u[x] == k;
                assert(keys[x] != keys[keys.len() - 1]);
            }
        }
        assert(visible(t, k) == visible(s, k));
    }
}

/// Two key lists with the same members delete the same.
pub proof fn lemma_delete_all_same_keys(s: Seq<KvEntry>, a: Seq<u32>, b: Seq<u32>)
    requires
        forall|k: u32| a.contains(k) <==> b.contains(k),
    ensures
        delete_all(s, a) == delete_all(s, b),
{
    assert forall|i: int| 0 <= i < s.len() implies delete_all(s, a)[i] == delete_all(s, b)[i] by {
        assert(a.contains(s[i].key) <==> b.contains(s[i].key));
    }
    assert(delete_all(s, a) =~= delete_all(s, b));
}

/// Some entry of the batch carries the tombstone value.
pub open spec fn has_tombstone(batch: Seq<KvEntry>) -> bool {
    exists|i: int| 0 <= i < batch.len() && (#[trigger] batch[i]).value == TOMBSTONE_VALUE
}

/// The key at position `j` of the batch stands at an earlier position too.
pub open spec fn repeats_at(batch: Seq<KvEntry>, j: int) -> bool {
    exists|i: int| 0 <= i < j && (#[trigger] batch[i]).key == batch[j].key
}

/// `j` is the first position of the batch whose key stood earlier.
pub open spec fn is_first_repeat(batch: Seq<KvEntry>, j: int) -> bool {
    &&& 0 <= j < batch.len()
    &&& repeats_at(batch, j)
    &&& forall|x: int| 0 <= x < j ==> !#[trigger] repeats_at(batch, x)
}

/// Two entries of the batch share a key.
pub open spec fn has_duplicate(batch: Seq<KvEntry>) -> bool {
    exists|j: int| #[trigger] is_first_repeat(batch, j)
}

/// The first position of the batch whose key stood earlier.
pub open spec fn first_repeat(batch: Seq<KvEntry>) -> int {
    choose|j: int| #[trigger] is_first_repeat(batch, j)
}

/// Number of entries of the batch whose key is not visible in `s`.
pub open spec fn net_new(s: Seq<KvEntry>, batch: Seq<KvEntry>) -> int {
    batch.len() - visible_count(s, keys_of(batch))
}

/// `n`, or the largest 32-bit number if `n` is larger.
pub open spec fn clip(n: int) -> u32 {
    if n > u32::MAX {
        u32::MAX
    } else {
        n as u32
    }
}

/// The error with which a put of `batch` into the slab `s` of a map with
/// `capacity` slots is refused, if it is refused: the tombstone value in the
/// batch comes first, then a repeated key, then want of room for the keys
/// that are not visible yet.  An empty batch is never refused.
pub open spec fn put_error(s: Seq<KvEntry>, capacity: u32, batch: Seq<KvEntry>) -> Option<
    GpuMapError,
> {
    if batch.len() == 0 {
        None
    } else if has_tombstone(batch) {
        Some(GpuMapError::TombstoneReserved { value: TOMBSTONE_VALUE })
    } else if has_duplicate(batch) {
        Some(GpuMapError::DuplicateKey { key: batch[first_repeat(batch)].key })
    } else if s.len() + net_new(s, batch) > capacity {
        Some(
            GpuMapError::CapacityExceeded {
                capacity,
                requested: clip(s.len() + net_new(s, batch)),
            },
        )
    } else {
        None
    }
}

/// The slab after a put of `batch`: the batch written over the slab where the
/// put is accepted, the slab unchanged where it is refused.
pub open spec fn put_result(s: Seq<KvEntry>, capacity: u32, batch: Seq<KvEntry>) -> Seq<KvEntry> {
    if put_error(s, capacity, batch) is None {
        put_all(s, batch)
    } else {
        s
    }
}

/// A sequence has one first repeat at most.
pub proof fn lemma_first_repeat(batch: Seq<KvEntry>, j: int)
    requires
        is_first_repeat(batch, j),
    ensures
        has_duplicate(batch),
        first_repeat(batch) == j,
{
    let c = first_repeat(batch);
    assert(is_first_repeat(batch, c));
    if c < j {
        assert(!repeats_at(batch, c));
    }
    if j < c {
        assert(!repeats_at(batch, j));
    }
}

/// A batch without a repeated key has pairwise distinct keys.
pub proof fn lemma_no_duplicate(batch: Seq<KvEntry>)
    requires
        forall|x: int| 0 <= x < batch.len() ==> !#[trigger] repeats_at(batch, x),
    ensures
        !has_duplicate(batch),
        keys_of(batch).no_duplicates(),
{
    if has_duplicate(batch) {
        let j = choose|j: int| #[trigger] is_first_repeat(batch, j);
        assert(!repeats_at(batch, j));
    }
    let ks = keys_of(batch);
    assert forall|i: int, j: int| 0 <= i < ks.len() && 0 <= j < ks.len() && i != j implies ks[i]
        != ks[j] by {
        if ks[i] == ks[j] {
            if i < j {
                assert(batch[i].key == batch[j].key);
                assert(repeats_at(batch, j));
            } else {
                assert(batch[j].key == batch[i].key);
                assert(repeats_at(batch, i));
            }
        }
    }
}

/// What an accepted put does to the counts: the slab grows by no more than
/// the number of keys that were not visible, the live count grows by exactly
/// that number, and the batch is no longer than the slab can hold.
pub proof fn lemma_put_counts(s: Seq<KvEntry>, batch: Seq<KvEntry>)
    requires
        sorted(s),
        !has_tombstone(batch),
        keys_of(batch).no_duplicates(),
    ensures
        put_all(s, batch).len() <= s.len() + net_new(s, batch),
        live_count(put_all(s, batch)) == live_count(s) + net_new(s, batch),
        0 <= net_new(s, batch) <= batch.len(),
        batch.len() <= live_count(s) + net_new(s, batch),
    decreases batch.len(),
{
    lemma_delete_all_live(s, keys_of(batch));
    if batch.len() == 0 {
        assert(keys_of(batch) =~= Seq::<u32>::empty());
    } else {
        let b = batch.drop_last();
        let e = batch.last();
        assert(keys_of(batch).drop_last() =~= keys_of(b));
        assert(keys_of(batch).last() == e.key);
        assert(!has_tombstone(b)) by {
            if has_tombstone(b) {
                let i = choose|i: int| 0 <= i < b.len() && (#[trigger] b[i]).value
                    == TOMBSTONE_VALUE;
                assert(batch[i].value == TOMBSTONE_VALUE);
            }
        }
        assert(keys_of(b).no_duplicates()) by {
            assert forall|i: int, j: int|
                0 <= i < keys_of(b).len() && 0 <= j < keys_of(b).len() && i != j implies keys_of(
                b,
            )[i] != keys_of(b)[j] by {
                assert(keys_of(batch)[i] != keys_of(batch)[j]);
            }
        }
        lemma_put_counts(s, b);
        let t = put_all(s, b);
        lemma_put_all(s, b);
        lemma_upsert(t, e);
        assert(batch[batch.len() - 1].value != TOMBSTONE_VALUE);
        lemma_upsert_live(t, e);
        // the key of `e` is not written by the rest of the batch
        lemma_lookup_index(b, e.key);
        if has_key(b, e.key) {
            let i = choose|i: int| 0 <= i < b.len() && (#[trigger] b[i]).key == e.key;
            assert(keys_of(batch)[i] != keys_of(batch)[batch.len() - 1]);
        }
        assert(lookup(t, e.key) == overlay(s, b, e.key));
        assert(lookup(t, e.key) == lookup(s, e.key));
    }
}

/// Number of lookups of `r` that found a value.
pub open spec fn found_count(r: Seq<Option<u32>>) -> nat
    decreases r.len(),
{
    if r.len() == 0 {
        0
    } else {
        found_count(r.drop_last()) + if r.last() is Some {
            1nat
        } else {
            0nat
        }
    }
}

/// `keys` without the positions whose key stood earlier.
pub open spec fn first_occurrences(keys: Seq<u32>) -> Seq<u32>
    decreases keys.len(),
{
    if keys.len() == 0 {
        keys
    } else if keys.drop_last().contains(keys.last()) {
        first_occurrences(keys.drop_last())
    } else {
        first_occurrences(keys.drop_last()).push(keys.last())
    }
}

/// The lookups of `keys` in `s` find as many values as keys are visible.
pub proof fn lemma_found_count(s: Seq<KvEntry>, keys: Seq<u32>, r: Seq<Option<u32>>)
    requires
        r.len() == keys.len(),
        forall|i: int| 0 <= i < keys.len() ==> #[trigger] r[i] == visible(s, keys[i]),
    ensures
        found_count(r) == visible_count(s, keys),
        found_count(r) <= r.len(),
    decreases keys.len(),
{
    if keys.len() > 0 {
        let r2 = r.drop_last();
        let k2 = keys.drop_last();
        assert forall|i: int| 0 <= i < k2.len() implies #[trigger] r2[i] == visible(s, k2[i]) by {
            assert(r[i] == visible(s, keys[i]));
        }
        lemma_found_count(s, k2, r2);
        assert(r[r.len() - 1] == visible(s, keys[keys.len() - 1]));
    }
}

/// The first occurrences are pairwise distinct and have the members of the
/// list.
pub proof fn lemma_first_occurrences(keys: Seq<u32>)
    ensures
        first_occurrences(keys).no_duplicates(),
        forall|k: u32| first_occurrences(keys).contains(k) <==> keys.contains(k),
    decreases keys.len(),
{
    let f = first_occurrences(keys);
    if keys.len() == 0 {
    } else {
        let u = keys.drop_last();
        let last = keys.last();
        let g = first_occurrences(u);
        lemma_first_occurrences(u);
        assert forall|k: u32| f.contains(k) <==> keys.contains(k) by {
            if keys.contains(k) {
                let x = choose|x: int| 0 <= x < keys.len() && keys[x] == k;
                if x < u.len() {
                    assert(u[x] == k);
                    assert(u.contains(k));
                    assert(g.contains(k));
                    let y = choose|y: int| 0 <= y < g.len() && g[y] == k;
                    assert(f[y] == k);
                } else {
                    if u.contains(last) {
                        assert(g.contains(k));
                    } else {
                        assert(f[f.len() - 1] == k);
                    }
                }
            }
            if f.contains(k) {
                let y = choose|y: int| 0 <= y < f.len() && f[y] == k;
                if y < g.len() {
                    assert(g[y] == k);
                    assert(g.contains(k));
                    assert(u.contains(k));
                    let x = choose|x: int| 0 <= x < u.len() && u[x] == k;
                    assert(keys[x] == k);
                } else {
                    assert(keys[keys.len() - 1] == k);
                }
            }
        }
        if !u.contains(last) {
            assert forall|i: int, j: int| 0 <= i < f.len() && 0 <= j < f.len() && i != j implies f[i]
                != f[j] by {
                if i < g.len() && j < g.len() {
                    assert(g[i] != g[j]);
                } else if i < g.len() {
                    assert(g.contains(g[i]));
                } else {
                    assert(g.contains(g[j]));
                }
            }
        }
    }
}

/// A put of one entry: it is refused for the tombstone value, and for want
/// of a slot when its key is not visible and the slab is full; an accepted
/// put writes the entry into the slab.
pub proof fn lemma_single_put(s: Seq<KvEntry>, capacity: u32, e: KvEntry)
    requires
        s.len() <= capacity,
    ensures
        put_error(s, capacity, seq![e]) == if e.value == TOMBSTONE_VALUE {
            Some(GpuMapError::TombstoneReserved { value: TOMBSTONE_VALUE })
        } else if visible(s, e.key) is None && s.len() + 1 > capacity {
            Some(GpuMapError::CapacityExceeded { capacity, requested: clip((s.len() + 1) as int) })
        } else {
            None
        },
        put_all(s, seq![e]) == upsert(s, e),
        net_new(s, seq![e]) == if visible(s, e.key) is None {
            1int
        } else {
            0int
        },
{
    let b = seq![e];
    assert(b.len() == 1);
    assert(b[0] == e);
    assert(b.last() == e);
    assert(b.drop_last() =~= Seq::<KvEntry>::empty());
    assert(put_all(s, b.drop_last()) == s);
    if e.value == TOMBSTONE_VALUE {
        assert(b[0].value == TOMBSTONE_VALUE);
        assert(has_tombstone(b));
    } else {
        assert(!has_tombstone(b));
    }
    assert(!has_duplicate(b)) by {
        if has_duplicate(b) {
            let j = choose|j: int| #[trigger] is_first_repeat(b, j);
            assert(repeats_at(b, j));
        }
    }
    let ks = keys_of(b);
    assert(ks.len() == 1);
    assert(ks.last() == e.key);
    assert(ks.drop_last() =~= Seq::<u32>::empty());
    assert(visible_count(s, ks.drop_last()) == 0);
    assert(visible_count(s, ks) == if visible(s, e.key) is Some { 1nat } else { 0nat });
    assert(net_new(s, b) == if visible(s, e.key) is None { 1int } else { 0int });
    if e.value != TOMBSTONE_VALUE {
        if visible(s, e.key) is None && s.len() + 1 > capacity {
            assert(s.len() + net_new(s, b) > capacity);
            assert(put_error(s, capacity, b) == Some(
                GpuMapError::CapacityExceeded {
                    capacity,
                    requested: clip(s.len() + net_new(s, b)),
                },
            ));
        } else {
            assert(!(s.len() + net_new(s, b) > capacity));
            assert(put_error(s, capacity, b) is None);
        }
    }
}

} // verus!
