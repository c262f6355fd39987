//! The sort stage: a bitonic sorting network over the batch, padded to a
//! power of two.
//!
//! The network sorts 64-bit ranks.  The rank of an entry is its key in the
//! upper half and its position in the batch in the lower half, so entries
//! with equal keys keep their batch order.  The padding slots carry the
//! sentinel key and positions behind the batch, so they rank above every
//! entry and sink to the high end.

use vstd::prelude::*;
use vstd::set_lib::{lemma_int_range, lemma_len_subset, set_int_range};
use crate::data::{KvEntry, SortParams, SENTINEL_KEY};
use crate::model::{ascending, has_key, lemma_last_occurrence, lemma_lookup_index, lemma_lookup_last,
    lookup};
use crate::pipelines::network::{lemma_first_stage, lemma_next_stage, lemma_ordered_mono,
    lemma_pass_staged, lemma_pow2b_double, lemma_pow2b_gap, lemma_pow2b_half, lemma_zero_aligned,
    mono, block_size, pass_ctx, pow2b, staged};

verus! {

/// The longest batch that one put can sort: padded to a power of two, its
/// length still fits the 32-bit length field of the sort parameters.
pub const MAX_BATCH: u32 = 0x8000_0000;

/// `p` is 1, 2, 4, 8, ...
pub open spec fn is_power_of_two(p: int) -> bool
    decreases p,
{
    if p <= 1 {
        p == 1
    } else {
        p % 2 == 0 && is_power_of_two(p / 2)
    }
}

/// The rank of slot `i` of a padded batch: key and position for an entry,
/// sentinel key and position for a padding slot.
pub open spec fn rank_of(batch: Seq<KvEntry>, i: int) -> int {
    if i < batch.len() {
        batch[i].key as int * 0x1_0000_0000 + i
    } else {
        SENTINEL_KEY as int * 0x1_0000_0000 + i
    }
}

/// The ranks of a batch padded to `p` slots, in batch order.
pub open spec fn initial_ranks(batch: Seq<KvEntry>, p: int) -> Seq<u64> {
    Seq::new(p as nat, |i: int| rank_of(batch, i) as u64)
}

/// What slot `x` holds after one pass of the network: each slot is paired
/// with the slot whose index differs in the bit `j`; the pair is put in
/// ascending order when the bit `k` of the lower index is clear, and in
/// descending order when it is set.  A slot whose partner lies outside the
/// array is left alone.
pub open spec fn pass_value(a: Seq<u64>, k: u32, j: u32, x: int) -> u64 {
    let l = ((x as u32) ^ j) as int;
    if l >= a.len() {
        a[x]
    } else {
        let lower = if l < x { l } else { x };
        let asc = ((lower as u32) & k) == 0;
        let lo = if a[x] <= a[l] { a[x] } else { a[l] };
        let hi = if a[x] <= a[l] { a[l] } else { a[x] };
        if (x == lower) == asc {
            lo
        } else {
            hi
        }
    }
}

/// The array after one pass of the network.
pub open spec fn bitonic_pass(a: Seq<u64>, k: u32, j: u32) -> Seq<u64> {
    Seq::new(a.len(), |x: int| pass_value(a, k, j, x))
}

/// The parameters of a pass of the network over `len` slots: `k` is the
/// stage, `j` below it the distance of the pairs.
pub open spec fn pass_ok(p: SortParams) -> bool {
    1 <= p.j && p.j < p.k && p.k <= p.len && p.len <= MAX_BATCH
}

/// The first pass over `len` slots: stage 2, distance 1.  Fewer than two
/// slots need no pass.
pub open spec fn first_pass_spec(len: u32) -> Option<SortParams> {
    if 2 <= len && len <= MAX_BATCH {
        Some(SortParams { k: 2, j: 1, len, _pad: 0 })
    } else {
        None
    }
}

/// The pass that follows `p`: within a stage the distance halves down to 1;
/// then the next stage, twice as wide, starts at half its width; the stage
/// as wide as the array is the last.
pub open spec fn next_pass_spec(p: SortParams) -> Option<SortParams> {
    if p.j >= 2 {
        Some(SortParams { k: p.k, j: p.j / 2, len: p.len, _pad: 0 })
    } else if 2 * p.k <= p.len {
        Some(SortParams { k: (2 * p.k) as u32, j: p.k, len: p.len, _pad: 0 })
    } else {
        None
    }
}

/// The array after the passes from `next` to the last.
pub open spec fn bitonic_network(a: Seq<u64>, next: Option<SortParams>) -> Seq<u64>
    decreases
        (match next {
            Some(p) => if pass_ok(p) { 2 * p.len - p.k } else { 0 },
            None => 0,
        }),
        (match next {
            Some(p) => p.j as int,
            None => 0,
        }),
{
    match next {
        None => a,
        Some(p) => if pass_ok(p) {
            bitonic_network(bitonic_pass(a, p.k, p.j), next_pass_spec(p))
        } else {
            a
        },
    }
}

/// Two arrays hold the same values.
pub open spec fn same_values(a: Seq<u64>, b: Seq<u64>) -> bool {
    &&& a.len() == b.len()
    &&& forall|v: u64| a.contains(v) <==> b.contains(v)
}

/// Strictly ascending.
pub open spec fn increasing(a: Seq<u64>) -> bool {
    forall|x: int, y: int| 0 <= x < y < a.len() ==> a[x] < a[y]
}

/// Some slot of `perm` holds `i`.
pub open spec fn placed(perm: Seq<int>, i: int) -> bool {
    exists|t: int| 0 <= t < perm.len() && #[trigger] perm[t] == i
}

/// `out` is `batch` in ascending key order, entries with equal keys in their
/// batch order; `perm[t]` is the batch position of the entry at `t`.
pub open spec fn is_stable_sort(batch: Seq<KvEntry>, out: Seq<KvEntry>, perm: Seq<int>) -> bool {
    &&& out.len() == batch.len()
    &&& perm.len() == batch.len()
    &&& forall|t: int|
        0 <= t < out.len() ==> 0 <= perm[t] < batch.len() && #[trigger] out[t] == batch[perm[t]]
    &&& forall|a: int, b: int|
        #![trigger out[a], out[b]]
        0 <= a < b < out.len() ==> out[a].key < out[b].key || (out[a].key == out[b].key && perm[a]
            < perm[b])
    &&& forall|i: int| 0 <= i < batch.len() ==> #[trigger] placed(perm, i)
}

/// `out` is the stable sort of `batch` by key.
pub open spec fn stable_sorted(batch: Seq<KvEntry>, out: Seq<KvEntry>) -> bool {
    exists|perm: Seq<int>| is_stable_sort(batch, out, perm)
}

/// Between two powers of two there is a factor of two.
pub proof fn lemma_power_of_two_gap(p: int, q: int)
    requires
        is_power_of_two(p),
        is_power_of_two(q),
        p < q,
    ensures
        2 * p <= q,
    decreases p,
{
    if p > 1 {
        lemma_power_of_two_gap(p / 2, q / 2);
    }
}

/// The smallest power of two that is not below `len`; 1 for an empty batch.
pub fn padded_len(len: u32) -> (p: u32)
    requires
        len <= MAX_BATCH,
    ensures
        is_power_of_two(p as int),
        len <= p <= MAX_BATCH,
        p == 1 || p / 2 < len,
{
    let mut p: u32 = 1;
    proof {
        reveal_with_fuel(is_power_of_two, 34);
        assert(is_power_of_two(0x8000_0000));
    }
    while p < len
        invariant
            is_power_of_two(p as int),
            is_power_of_two(0x8000_0000),
            len <= MAX_BATCH,
            p <= MAX_BATCH,
            p == 1 || p / 2 < len,
        decreases MAX_BATCH - p,
    {
        proof {
            lemma_power_of_two_gap(p as int, 0x8000_0000);
            assert(is_power_of_two(2 * p)) by {
                assert((2 * p) / 2 == p);
            }
        }
        p = p * 2;
    }
    p
}

/// A pass moves values between the two slots of a pair and nowhere else, so
/// the array holds the same values afterwards.
pub proof fn lemma_pass_same_values(a: Seq<u64>, k: u32, j: u32)
    requires
        a.len() <= MAX_BATCH,
    ensures
        same_values(bitonic_pass(a, k, j), a),
{
    let b = bitonic_pass(a, k, j);
    assert(forall|x: u32| #[trigger] (x ^ j) ^ j == x) by (bit_vector);
    assert forall|v: u64| b.contains(v) <==> a.contains(v) by {
        if b.contains(v) {
            let x = choose|x: int| 0 <= x < b.len() && b[x] == v;
            let l = ((x as u32) ^ j) as int;
            if l < a.len() {
                assert(a[x] == v || a[l] == v);
            } else {
                assert(a[x] == v);
            }
        }
        if a.contains(v) {
            let x = choose|x: int| 0 <= x < a.len() && a[x] == v;
            let l = ((x as u32) ^ j) as int;
            if l < a.len() {
                assert(((l as u32) ^ j) as int == x);
                assert(b[x] == pass_value(a, k, j, x));
                assert(b[l] == pass_value(a, k, j, l));
                assert(b[x] == v || b[l] == v);
            } else {
                assert(b[x] == v);
            }
        }
    }
}

/// One pass of the network over `ranks`, as `params.len` invocations: the
/// invocation at index `i` looks at the slot `i XOR j`, and where that slot
/// lies above `i` it orders the pair, ascending when `i AND k` is zero.
pub fn sort_pass(ranks: &mut Vec<u64>, params: SortParams)
    requires
        old(ranks)@.len() == params.len,
        params.len <= MAX_BATCH,
    ensures
        final(ranks)@ == bitonic_pass(old(ranks)@, params.k, params.j),
        same_values(final(ranks)@, old(ranks)@),
{
    let len: u32 = params.len;
    let k: u32 = params.k;
    let j: u32 = params.j;
    let ghost a = ranks@;
    assert(forall|x: u32| #[trigger] (x ^ j) ^ j == x) by (bit_vector);
    let mut i: u32 = 0;
    while i < len
        invariant
            i <= len,
            len <= MAX_BATCH,
            ranks@.len() == len,
            a.len() == len,
            a == old(ranks)@,
            forall|x: u32| #[trigger] (x ^ j) ^ j == x,
            forall|x: int|
                0 <= x < len ==> #[trigger] ranks@[x] == if (if (((x as u32) ^ j) as int) < x {
                    ((x as u32) ^ j) as int
                } else {
                    x
                }) < i {
                    pass_value(a, k, j, x)
                } else {
                    a[x]
                },
        decreases len - i,
    {
        let ixj: u32 = i ^ j;
        let ghost before = ranks@;
        assert((ixj ^ j) == i);
        if ixj > i && ixj < len {
            let x: u64 = ranks[i as usize];
            let y: u64 = ranks[ixj as usize];
            let ascending: bool = (i & k) == 0;
            if ascending {
                if x > y {
                    ranks.set(i as usize, y);
                    ranks.set(ixj as usize, x);
                }
            } else {
                if x < y {
                    ranks.set(i as usize, y);
                    ranks.set(ixj as usize, x);
                }
            }
            assert(before[i as int] == a[i as int]);
            assert(before[ixj as int] == a[ixj as int]);
            assert(ranks@[i as int] == pass_value(a, k, j, i as int));
            assert(ranks@[ixj as int] == pass_value(a, k, j, ixj as int));
        }
        assert forall|x: int| 0 <= x < len implies #[trigger] ranks@[x] == if (if (((x as u32)
            ^ j) as int) < x {
            ((x as u32) ^ j) as int
        } else {
            x
        }) < i + 1 {
            pass_value(a, k, j, x)
        } else {
            a[x]
        } by {
            let l = ((x as u32) ^ j) as int;
            assert(((l as u32) ^ j) as int == x);
            if x != i && x != ixj {
                assert(ranks@[x] == before[x]);
            }
        }
        i = i + 1;
    }
    proof {
        assert(ranks@ =~= bitonic_pass(a, k, j));
        lemma_pass_same_values(a, k, j);
    }
}

/// The first pass of the network over `len` slots, if it has any.
pub fn first_pass(len: u32) -> (p: Option<SortParams>)
    requires
        len <= MAX_BATCH,
    ensures
        p == first_pass_spec(len),
        p is Some ==> pass_ok(p->0),
{
    if len >= 2 {
        Some(SortParams { k: 2, j: 1, len, _pad: 0 })
    } else {
        None
    }
}

/// The pass of the network that follows `p`, or `None` after the last.
pub fn next_pass(p: SortParams) -> (n: Option<SortParams>)
    requires
        pass_ok(p),
    ensures
        n == next_pass_spec(p),
        n is Some ==> pass_ok(n->0),
{
    if p.j >= 2 {
        Some(SortParams { k: p.k, j: p.j / 2, len: p.len, _pad: 0 })
    } else if p.k <= p.len / 2 {
        Some(SortParams { k: p.k * 2, j: p.k, len: p.len, _pad: 0 })
    } else {
        None
    }
}

/// A power of two is one in bits too.
pub proof fn lemma_power_bits(x: int)
    requires
        is_power_of_two(x),
        x <= MAX_BATCH,
    ensures
        block_size(x),
    decreases x,
{
    lemma_zero_aligned(0);
    if x > 1 {
        lemma_power_bits(x / 2);
        lemma_pow2b_double((x / 2) as u32);
    }
}

/// An ascending array that holds the values of an array without duplicates
/// is strictly ascending.
pub proof fn lemma_strictly(a: Seq<u64>, b: Seq<u64>)
    requires
        same_values(b, a),
        a.no_duplicates(),
        mono(b, 0, b.len() as int, true),
    ensures
        increasing(b),
{
    a.unique_seq_to_set();
    assert(b.to_set() =~= a.to_set());
    b.lemma_no_dup_set_cardinality();
    assert forall|x: int, y: int| 0 <= x < y < b.len() implies b[x] < b[y] by {
        assert(b[x] <= b[y]);
        assert(b[x] != b[y]);
    }
}

/// The sort step: runs the network over `ranks`, whose length `padded_len` is
/// a power of two, and leaves them in ascending order.  The stages are
/// `k = 2, 4, ..., padded_len`; stage `k` runs the passes
/// `j = k/2, k/4, ..., 1`.
pub fn run_sort_step(ranks: &mut Vec<u64>, padded_len: u32)
    requires
        old(ranks)@.len() == padded_len,
        padded_len <= MAX_BATCH,
        is_power_of_two(padded_len as int),
    ensures
        final(ranks)@ == bitonic_network(old(ranks)@, first_pass_spec(padded_len)),
        same_values(final(ranks)@, old(ranks)@),
        mono(final(ranks)@, 0, padded_len as int, true),
        old(ranks)@.no_duplicates() ==> increasing(final(ranks)@),
{
    let ghost a = ranks@;
    let ghost width = padded_len as int;
    let mut next: Option<SortParams> = first_pass(padded_len);
    proof {
        lemma_power_bits(width);
        lemma_zero_aligned(padded_len);
        if padded_len >= 2 {
            lemma_first_stage(a, 0, width);
        }
    }
    loop
        invariant_except_break
            ranks@.len() == padded_len,
            padded_len <= MAX_BATCH,
            width == padded_len,
            block_size(width),
            next is Some ==> pass_ok(next->0) && (next->0).len == padded_len && pow2b((next->0).k)
                && pow2b((next->0).j) && staged(
                ranks@,
                0,
                width,
                (next->0).k as int,
                2 * (next->0).j,
            ),
            next is None ==> mono(ranks@, 0, width, true),
            same_values(ranks@, a),
            bitonic_network(ranks@, next) == bitonic_network(a, first_pass_spec(padded_len)),
        ensures
            ranks@ == bitonic_network(a, first_pass_spec(padded_len)),
            same_values(ranks@, a),
            mono(ranks@, 0, width, true),
        decreases
            (match next {
                Some(p) => if pass_ok(p) { 2 * p.len - p.k } else { 0 },
                None => 0,
            }),
            (match next {
                Some(p) => p.j as int,
                None => 0,
            }),
    {
        match next {
            None => {
                break ;
            },
            Some(params) => {
                let ghost before = ranks@;
                sort_pass(ranks, params);
                next = next_pass(params);
                proof {
                    let k = params.k;
                    let j = params.j;
                    assert(pass_ctx(before, ranks@, k, j));
                    lemma_zero_aligned(padded_len);
                    lemma_pass_staged(before, ranks@, k, j, 0, width);
                    if j >= 2 {
                        lemma_pow2b_half(j);
                    } else if 2 * k <= padded_len {
                        lemma_pow2b_double(k);
                        lemma_next_stage(ranks@, 0, width, k as int);
                    } else {
                        if k < padded_len {
                            lemma_pow2b_gap(k, padded_len);
                        }
                        lemma_ordered_mono(ranks@, 0, width, true);
                    }
                }
            },
        }
    }
    proof {
        if a.no_duplicates() {
            lemma_strictly(a, ranks@);
        }
    }
}

/// Distinct integers of a range are no more than the range holds.
pub proof fn lemma_distinct_in_range(f: Seq<int>, lo: int, hi: int)
    requires
        lo <= hi,
        f.no_duplicates(),
        forall|x: int| 0 <= x < f.len() ==> lo <= #[trigger] f[x] < hi,
    ensures
        f.len() <= hi - lo,
{
    f.unique_seq_to_set();
    lemma_int_range(lo, hi);
    assert(f.to_set().subset_of(set_int_range(lo, hi))) by {
        assert forall|v: int| f.to_set().contains(v) implies set_int_range(lo, hi).contains(v) by {
            let x = choose|x: int| 0 <= x < f.len() && f[x] == v;
            assert(lo <= f[x] < hi);
        }
    }
    lemma_len_subset(f.to_set(), set_int_range(lo, hi));
}

/// The position part of a rank.
pub open spec fn rank_index(v: u64) -> int {
    v as int % 0x1_0000_0000
}

/// The ranks of a padded batch are pairwise distinct, and each splits into
/// its key and its position.
pub proof fn lemma_initial_ranks(batch: Seq<KvEntry>, p: int)
    requires
        batch.len() <= p <= MAX_BATCH,
    ensures
        initial_ranks(batch, p).no_duplicates(),
        forall|i: int|
            0 <= i < p ==> #[trigger] initial_ranks(batch, p)[i] as int == rank_of(batch, i)
                && rank_index(initial_ranks(batch, p)[i]) == i,
{
    let r0 = initial_ranks(batch, p);
    assert forall|i: int| 0 <= i < p implies #[trigger] r0[i] as int == rank_of(batch, i)
        && rank_index(r0[i]) == i by {
        let key: int = if i < batch.len() { batch[i].key as int } else { SENTINEL_KEY as int };
        assert(rank_of(batch, i) == key * 0x1_0000_0000 + i);
        assert(0 <= key <= 0xFFFF_FFFF);
    }
    assert forall|i: int, j: int| 0 <= i < r0.len() && 0 <= j < r0.len() && i != j implies r0[i]
        != r0[j] by {
        assert(rank_index(r0[i]) == i);
        assert(rank_index(r0[j]) == j);
    }
}

/// Every rank of the sorted array is the rank of some slot of the padded
/// batch.
pub proof fn lemma_rank_origin(batch: Seq<KvEntry>, r: Seq<u64>, t: int)
    requires
        batch.len() <= r.len() <= MAX_BATCH,
        same_values(r, initial_ranks(batch, r.len() as int)),
        0 <= t < r.len(),
    ensures
        0 <= rank_index(r[t]) < r.len(),
        r[t] as int == rank_of(batch, rank_index(r[t])),
{
    let p = r.len() as int;
    let r0 = initial_ranks(batch, p);
    lemma_initial_ranks(batch, p);
    assert(r.contains(r[t]));
    assert(r0.contains(r[t]));
    let i = choose|i: int| 0 <= i < r0.len() && r0[i] == r[t];
    assert(rank_index(r0[i]) == i);
}

/// In the sorted array the padding stands behind the batch: each of the
/// first `batch.len()` ranks belongs to an entry.
pub proof fn lemma_front_is_batch(batch: Seq<KvEntry>, r: Seq<u64>, t: int)
    requires
        batch.len() <= r.len() <= MAX_BATCH,
        same_values(r, initial_ranks(batch, r.len() as int)),
        increasing(r),
        0 <= t < batch.len(),
    ensures
        0 <= rank_index(r[t]) < batch.len(),
{
    let n = batch.len() as int;
    let p = r.len() as int;
    lemma_rank_origin(batch, r, t);
    if rank_index(r[t]) >= n {
        let f = Seq::new((p - t) as nat, |x: int| rank_index(r[t + x]));
        assert forall|x: int| 0 <= x < f.len() implies n <= #[trigger] f[x] < p by {
            lemma_rank_origin(batch, r, t + x);
            if x > 0 {
                assert(r[t] < r[t + x]);
            }
        }
        assert forall|x: int, y: int| 0 <= x < f.len() && 0 <= y < f.len() && x != y implies f[x]
            != f[y] by {
            lemma_rank_origin(batch, r, t + x);
            lemma_rank_origin(batch, r, t + y);
            if x < y {
                assert(r[t + x] < r[t + y]);
            } else {
                assert(r[t + y] < r[t + x]);
            }
        }
        lemma_distinct_in_range(f, n, p);
    }
}

/// In the sorted array every entry of the batch stands among the first
/// `batch.len()` ranks.
pub proof fn lemma_batch_is_front(batch: Seq<KvEntry>, r: Seq<u64>, i: int) -> (t: int)
    requires
        batch.len() <= r.len() <= MAX_BATCH,
        same_values(r, initial_ranks(batch, r.len() as int)),
        increasing(r),
        0 <= i < batch.len(),
    ensures
        0 <= t < batch.len(),
        rank_index(r[t]) == i,
{
    let n = batch.len() as int;
    let p = r.len() as int;
    let r0 = initial_ranks(batch, p);
    lemma_initial_ranks(batch, p);
    assert(r0.contains(r0[i]));
    assert(r.contains(r0[i]));
    let t = choose|t: int| 0 <= t < r.len() && r[t] == r0[i];
    if t >= n {
        let f = Seq::new((t + 1) as nat, |x: int| rank_index(r[x]));
        assert forall|x: int| 0 <= x < f.len() implies 0 <= #[trigger] f[x] < n by {
            lemma_rank_origin(batch, r, x);
            if x < t {
                assert(r[x] < r[t]);
            }
        }
        assert forall|x: int, y: int| 0 <= x < f.len() && 0 <= y < f.len() && x != y implies f[x]
            != f[y] by {
            lemma_rank_origin(batch, r, x);
            lemma_rank_origin(batch, r, y);
            if x < y {
                assert(r[x] < r[y]);
            } else {
                assert(r[y] < r[x]);
            }
        }
        lemma_distinct_in_range(f, 0, n);
    }
    t
}

/// The ranks of the first `len` slots of `data`, followed by the ranks of
/// the padding up to `padded` slots.
pub fn build_ranks(data: &Vec<KvEntry>, len: u32, padded: u32) -> (ranks: Vec<u64>)
    requires
        len <= data@.len(),
        len <= padded <= MAX_BATCH,
    ensures
        ranks@ == initial_ranks(data@.take(len as int), padded as int),
{
    let ghost batch = data@.take(len as int);
    let mut ranks: Vec<u64> = Vec::new();
    let mut i: u32 = 0;
    while i < padded
        invariant
            i <= padded,
            len <= data@.len(),
            len <= padded <= MAX_BATCH,
            batch == data@.take(len as int),
            ranks@.len() == i,
            forall|x: int| 0 <= x < i ==> #[trigger] ranks@[x] as int == rank_of(batch, x),
        decreases padded - i,
    {
        let key: u32 = if i < len {
            data[i as usize].key
        } else {
            SENTINEL_KEY
        };
        let rank: u64 = (key as u64) * 0x1_0000_0000 + (i as u64);
        ranks.push(rank);
        i = i + 1;
    }
    proof {
        lemma_initial_ranks(batch, padded as int);
        assert(ranks@ =~= initial_ranks(batch, padded as int));
    }
    ranks
}

/// Reads the entries of the batch in the order of the sorted ranks.
fn gather(data: &Vec<KvEntry>, len: u32, ranks: &Vec<u64>) -> (out: Vec<KvEntry>)
    requires
        len <= data@.len(),
        len <= ranks@.len() <= MAX_BATCH,
        same_values(ranks@, initial_ranks(data@.take(len as int), ranks@.len() as int)),
        increasing(ranks@),
    ensures
        stable_sorted(data@.take(len as int), out@),
{
    let ghost batch = data@.take(len as int);
    let ghost r = ranks@;
    let mut out: Vec<KvEntry> = Vec::new();
    let mut t: u32 = 0;
    while t < len
        invariant
            t <= len,
            len <= data@.len(),
            len <= ranks@.len() <= MAX_BATCH,
            batch == data@.take(len as int),
            r == ranks@,
            same_values(r, initial_ranks(batch, r.len() as int)),
            increasing(r),
            out@.len() == t,
            forall|x: int| 0 <= x < t ==> 0 <= #[trigger] rank_index(r[x]) < len,
            forall|x: int| 0 <= x < t ==> #[trigger] out@[x] == batch[rank_index(r[x])],
        decreases len - t,
    {
        let v: u64 = ranks[t as usize];
        let idx: usize = (v % 0x1_0000_0000) as usize;
        proof {
            lemma_front_is_batch(batch, r, t as int);
            assert(idx as int == rank_index(r[t as int]));
            assert(batch[idx as int] == data@[idx as int]);
        }
        let ghost out0 = out@;
        out.push(data[idx]);
        proof {
            assert forall|x: int| 0 <= x < t + 1 implies #[trigger] out@[x] == batch[rank_index(
                r[x],
            )] by {
                if x < t {
                    assert(out@[x] == out0[x]);
                }
            }
        }
        t = t + 1;
    }
    proof {
        let perm = Seq::new(len as nat, |x: int| rank_index(r[x]));
        assert forall|a: int, b: int|
            #![trigger out@[a], out@[b]]
            0 <= a < b < out@.len() implies out@[a].key < out@[b].key || (out@[a].key
                == out@[b].key && perm[a] < perm[b]) by {
            assert(out@[a] == batch[rank_index(r[a])]);
            assert(out@[b] == batch[rank_index(r[b])]);
            lemma_rank_origin(batch, r, a);
            lemma_rank_origin(batch, r, b);
            assert(r[a] < r[b]);
            assert(r[a] as int == out@[a].key as int * 0x1_0000_0000 + perm[a]);
            assert(r[b] as int == out@[b].key as int * 0x1_0000_0000 + perm[b]);
        }
        assert forall|i: int| 0 <= i < batch.len() implies #[trigger] placed(perm, i) by {
            let t0 = lemma_batch_is_front(batch, r, i);
            assert(perm[t0] == i);
        }
        assert forall|x: int| 0 <= x < out@.len() implies 0 <= perm[x] < batch.len()
            && #[trigger] out@[x] == batch[perm[x]] by {
            assert(0 <= rank_index(r[x]) < len);
            assert(out@[x] == batch[rank_index(r[x])]);
        }
        assert(is_stable_sort(batch, out@, perm));
    }
    out
}

/// The sort stage: puts the first `len` slots of `data` in ascending key
/// order, entries with equal keys in the order in which they stood.  The
/// batch is padded to a power of two with sentinel slots, ranked, run
/// through the network, and read back in the order of the ranks.
pub fn sort_entries(data: &mut Vec<KvEntry>, len: u32)
    requires
        len <= old(data)@.len(),
        len <= MAX_BATCH,
    ensures
        final(data)@.len() == old(data)@.len(),
        stable_sorted(old(data)@.take(len as int), final(data)@.take(len as int)),
        forall|i: int| len <= i < old(data)@.len() ==> final(data)@[i] == old(data)@[i],
{
    let ghost batch = data@.take(len as int);
    let padded: u32 = padded_len(len);
    let mut ranks: Vec<u64> = build_ranks(data, len, padded);
    proof {
        lemma_initial_ranks(batch, padded as int);
    }
    run_sort_step(&mut ranks, padded);
    let out: Vec<KvEntry> = gather(data, len, &ranks);
    let mut t: u32 = 0;
    while t < len
        invariant
            t <= len,
            len <= data@.len(),
            out@.len() == len,
            data@.len() == old(data)@.len(),
            forall|x: int| 0 <= x < t ==> data@[x] == out@[x],
            forall|x: int| len <= x < data@.len() ==> data@[x] == old(data)@[x],
        decreases len - t,
    {
        data.set(t as usize, out[t as usize]);
        t = t + 1;
    }
    assert(data@.take(len as int) =~= out@);
}

/// A stable sort leaves the keys ascending, and the last entry with each key
/// is still the last.
pub proof fn lemma_stable_sorted(batch: Seq<KvEntry>, out: Seq<KvEntry>)
    requires
        stable_sorted(batch, out),
    ensures
        out.len() == batch.len(),
        ascending(out),
        forall|k: u32| #[trigger] lookup(out, k) == lookup(batch, k),
{
    let perm = choose|perm: Seq<int>| is_stable_sort(batch, out, perm);
    assert forall|a: int, b: int| 0 <= a < b < out.len() implies out[a].key <= out[b].key by {
        assert(out[a].key < out[b].key || (out[a].key == out[b].key && perm[a] < perm[b]));
    }
    assert forall|k: u32| #[trigger] lookup(out, k) == lookup(batch, k) by {
        lemma_lookup_index(batch, k);
        lemma_lookup_index(out, k);
        if has_key(batch, k) {
            let i = lemma_last_occurrence(batch, k);
            lemma_lookup_last(batch, i);
            assert(placed(perm, i));
            let t = choose|t: int| 0 <= t < perm.len() && #[trigger] perm[t] == i;
            assert(out[t] == batch[perm[t]]);
            assert forall|u: int| t < u < out.len() implies (#[trigger] out[u]).key != out[t].key by {
                assert(out[t].key < out[u].key || (out[t].key == out[u].key && perm[t]
                    < perm[u]));
                assert(out[u] == batch[perm[u]]);
                if out[u].key == k {
                    assert(batch[perm[u]].key != k);
                }
            }
            lemma_lookup_last(out, t);
        } else {
            if has_key(out, k) {
                let t = choose|t: int| 0 <= t < out.len() && (#[trigger] out[t]).key == k;
                assert(out[t] == batch[perm[t]]);
                assert(batch[perm[t]].key == k);
            }
        }
    }
}

} // verus!
