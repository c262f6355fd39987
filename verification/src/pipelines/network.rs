//! Why the bitonic network sorts.
//!
//! A stage of width `k` works on the aligned blocks of `k` slots, each in its
//! own direction.  Before the pass of distance `j` every aligned block of
//! `2j` slots is bitonic, and within a block of `k` slots the blocks of `2j`
//! slots are ordered among each other in the direction of the stage.  The
//! pass splits each block of `2j` slots into two bitonic halves with every
//! slot of one half at most every slot of the other, so the same holds for
//! `j` afterwards.

use vstd::prelude::*;
use crate::pipelines::sort::{bitonic_pass, pass_value};

verus! {

/// `x` is a power of two, in bits.
pub open spec fn pow2b(x: u32) -> bool {
    x > 0 && (x & ((x - 1) as u32)) == 0
}

/// `lo` is a multiple of the power of two `size`, in bits.
pub open spec fn aligned(lo: u32, size: u32) -> bool {
    (lo & ((size - 1) as u32)) == 0
}

/// In an aligned block of `2j` slots the partner of a slot of the lower half
/// stands `j` slots above it, and the other way round.
pub proof fn lemma_partner(lo: u32, j: u32, x: u32)
    by (bit_vector)
    requires
        j > 0 && (j & ((j - 1) as u32)) == 0,
        j <= 0x4000_0000,
        (lo & ((2 * j - 1) as u32)) == 0,
        lo <= x,
        x < lo + 2 * j,
        lo + 2 * j <= 0x8000_0000,
    ensures
        x < lo + j ==> (x ^ j) == x + j,
        x >= lo + j ==> (x ^ j) == x - j,
{
}

/// Within an aligned block of `k` slots the bit `k` of the index does not
/// change.
pub proof fn lemma_direction(lo: u32, k: u32, x: u32)
    by (bit_vector)
    requires
        k > 0 && (k & ((k - 1) as u32)) == 0,
        k <= 0x8000_0000,
        (lo & ((k - 1) as u32)) == 0,
        lo <= x,
        x < lo + k,
        lo + k <= 0x8000_0000,
    ensures
        (x & k) == (lo & k),
{
}

/// Of the two halves of an aligned block of `2k` slots the lower has the bit
/// `k` clear and the upper has it set; both halves are aligned blocks.
pub proof fn lemma_halves(lo: u32, k: u32)
    by (bit_vector)
    requires
        k > 0 && (k & ((k - 1) as u32)) == 0,
        k <= 0x4000_0000,
        (lo & ((2 * k - 1) as u32)) == 0,
        lo + 2 * k <= 0x8000_0000,
    ensures
        (lo & k) == 0,
        ((lo + k) as u32 & k) != 0,
        (lo & ((k - 1) as u32)) == 0,
        ((lo + k) as u32 & ((k - 1) as u32)) == 0,
        (2 * k) as u32 > 0 && ((2 * k) as u32 & ((2 * k - 1) as u32)) == 0,
        k >= 2 ==> (k / 2) > 0 && ((k / 2) & ((k / 2 - 1) as u32)) == 0 && 2 * (k / 2) == k,
{
}

/// Between two powers of two there is a factor of two.
pub proof fn lemma_pow2b_gap(x: u32, y: u32)
    by (bit_vector)
    requires
        x > 0 && (x & ((x - 1) as u32)) == 0,
        y > 0 && (y & ((y - 1) as u32)) == 0,
        x < y,
        y <= 0x8000_0000,
    ensures
        2 * x <= y,
{
}

/// Whether `x` lies in the interval `[s, e)`, or outside it when `inv` is
/// set.
pub open spec fn pattern(s: int, e: int, inv: bool, x: int) -> bool {
    (s <= x < e) != inv
}

/// The slots of `[lo, lo + len)` that hold at least `t` are those of the
/// interval `[s, e)`, or those outside it.
pub open spec fn band(a: Seq<u64>, lo: int, len: int, t: u64, s: int, e: int, inv: bool) -> bool {
    &&& lo <= s <= e <= lo + len
    &&& forall|x: int| lo <= x < lo + len ==> ((#[trigger] a[x]) >= t) == pattern(s, e, inv, x)
}

/// The slots of the block that hold at least `t` form an interval or the
/// outside of one.
pub open spec fn banded(a: Seq<u64>, lo: int, len: int, t: u64) -> bool {
    exists|s: int, e: int, inv: bool| band(a, lo, len, t, s, e, inv)
}

/// The block rises and then falls, or is a rotation of such a block: for
/// every threshold the slots at or above it form an interval or the outside
/// of one.
pub open spec fn bitonic(a: Seq<u64>, lo: int, len: int) -> bool {
    forall|t: u64| #[trigger] banded(a, lo, len, t)
}

/// Every slot of the lower half is at most every slot of the upper half
/// (`d`), or at least every slot of it (`!d`).
pub open spec fn cross(a: Seq<u64>, lo: int, half: int, d: bool) -> bool {
    forall|u: int, v: int|
        lo <= u < lo + half && lo + half <= v < lo + 2 * half ==> if d {
            #[trigger] a[u] <= #[trigger] a[v]
        } else {
            a[u] >= a[v]
        }
}

/// The block ascends (`d`) or descends (`!d`).
pub open spec fn mono(a: Seq<u64>, lo: int, len: int, d: bool) -> bool {
    forall|u: int, v: int|
        lo <= u < v < lo + len ==> if d {
            #[trigger] a[u] <= #[trigger] a[v]
        } else {
            a[u] >= a[v]
        }
}

/// `a2` is `a` with each slot of `[lo, lo + j)` and the slot `j` above it
/// put in order: ascending for `d`, descending for `!d`.
pub open spec fn exchanged(a: Seq<u64>, a2: Seq<u64>, lo: int, j: int, d: bool) -> bool {
    forall|x: int|
        lo <= x < lo + j ==> (#[trigger] a2[x]) == (if (a[x] <= a[x + j]) == d {
            a[x]
        } else {
            a[x + j]
        }) && a2[x + j] == (if (a[x] <= a[x + j]) == d {
            a[x + j]
        } else {
            a[x]
        })
}

/// Where a pattern over a block of `2j` slots and the same pattern `j` slots
/// higher both hold, and where one of them holds: both are patterns over the
/// lower half, and either the first holds nowhere or the second everywhere.
pub proof fn lemma_patterns(lo: int, j: int, s: int, e: int, inv: bool) -> (r: (
    int,
    int,
    bool,
    int,
    int,
    bool,
))
    requires
        j >= 1,
        lo <= s <= e <= lo + 2 * j,
    ensures
        lo <= r.0 <= r.1 <= lo + j,
        lo <= r.3 <= r.4 <= lo + j,
        forall|x: int|
            lo <= x < lo + j ==> #[trigger] pattern(r.0, r.1, r.2, x) == (pattern(s, e, inv, x)
                && pattern(s, e, inv, x + j)),
        forall|x: int|
            lo <= x < lo + j ==> #[trigger] pattern(r.3, r.4, r.5, x) == (pattern(s, e, inv, x)
                || pattern(s, e, inv, x + j)),
        (forall|x: int| lo <= x < lo + j ==> !#[trigger] pattern(r.0, r.1, r.2, x)) || (forall|
            x: int,
        |
            lo <= x < lo + j ==> #[trigger] pattern(r.3, r.4, r.5, x)),
{
    let m = lo + j;
    // the interval [s, e) and its copy j slots lower: where both hold ...
    let sb: int = if s <= m { s } else { m };
    let eb: int = if e - j >= sb { e - j } else { sb };
    // ... and where one of them holds
    let (se, ee, ie): (int, int, bool) = if e - s >= j {
        (lo, m, false)
    } else if e <= m {
        (s, e, false)
    } else if s >= m {
        (s - j, e - j, false)
    } else {
        (e - j, s, true)
    };
    assert forall|x: int| lo <= x < lo + j implies #[trigger] pattern(sb, eb, false, x) == ((s <= x
        < e) && (s <= x + j < e)) by {}
    assert forall|x: int| lo <= x < lo + j implies #[trigger] pattern(se, ee, ie, x) == ((s <= x
        < e) || (s <= x + j < e)) by {}
    if !inv {
        (sb, eb, false, se, ee, ie)
    } else {
        (se, ee, !ie, sb, eb, true)
    }
}

/// One threshold of the split: if the slots of a block of `2j` slots at or
/// above `t` form a band, they do so in both halves after the exchange, and
/// the half that received the smaller values holds none of them or the other
/// half holds nothing else.
pub proof fn lemma_split_at(a: Seq<u64>, a2: Seq<u64>, lo: int, j: int, d: bool, t: u64)
    requires
        j >= 1,
        0 <= lo,
        lo + 2 * j <= a.len(),
        a2.len() == a.len(),
        exchanged(a, a2, lo, j, d),
        banded(a, lo, 2 * j, t),
    ensures
        banded(a2, lo, j, t),
        banded(a2, lo + j, j, t),
        d ==> (forall|x: int| lo <= x < lo + j ==> (#[trigger] a2[x]) < t) || (forall|y: int|
            lo + j <= y < lo + 2 * j ==> (#[trigger] a2[y]) >= t),
        !d ==> (forall|y: int| lo + j <= y < lo + 2 * j ==> (#[trigger] a2[y]) < t) || (forall|
            x: int,
        |
            lo <= x < lo + j ==> (#[trigger] a2[x]) >= t),
{
    let whole = 2 * j;
    let (s, e, inv) = choose|s: int, e: int, inv: bool| #[trigger] band(a, lo, whole, t, s, e, inv);
    let r = lemma_patterns(lo, j, s, e, inv);
    // the band of the half with the smaller values, and of the half with the larger
    let (s1, e1, i1) = (r.0, r.1, r.2);
    let (s2, e2, i2) = (r.3, r.4, r.5);
    assert forall|x: int| lo <= x < lo + j implies (((#[trigger] a[x]) >= t) == pattern(
        s,
        e,
        inv,
        x,
    )) && ((a[x + j] >= t) == pattern(s, e, inv, x + j)) by {
        let y = x + j;
        assert((a[y] >= t) == pattern(s, e, inv, y));
    }
    assert forall|x: int| lo <= x < lo + j implies (if d {
        ((#[trigger] a2[x]) >= t) == pattern(s1, e1, i1, x) && (a2[x + j] >= t) == pattern(
            s2,
            e2,
            i2,
            x,
        )
    } else {
        ((#[trigger] a2[x]) >= t) == pattern(s2, e2, i2, x) && (a2[x + j] >= t) == pattern(
            s1,
            e1,
            i1,
            x,
        )
    }) by {
        let y = x + j;
        assert(a2[x] == (if (a[x] <= a[y]) == d { a[x] } else { a[y] }));
        assert(a2[y] == (if (a[x] <= a[y]) == d { a[y] } else { a[x] }));
        assert(pattern(s1, e1, i1, x) == (pattern(s, e, inv, x) && pattern(s, e, inv, x + j)));
        assert(pattern(s2, e2, i2, x) == (pattern(s, e, inv, x) || pattern(s, e, inv, x + j)));
        assert((a[x] >= t) == pattern(s, e, inv, x));
        assert((a[x + j] >= t) == pattern(s, e, inv, x + j));
    }
    if d {
        assert(band(a2, lo, j, t, s1, e1, i1));
        assert(band(a2, lo + j, j, t, s2 + j, e2 + j, i2)) by {
            assert forall|y: int| lo + j <= y < lo + 2 * j implies ((#[trigger] a2[y]) >= t)
                == pattern(s2 + j, e2 + j, i2, y) by {
                let x = y - j;
                assert((a2[x] >= t) == pattern(s1, e1, i1, x));
                assert(pattern(s2, e2, i2, x) == pattern(s2 + j, e2 + j, i2, y));
            }
        }
        if forall|x: int| lo <= x < lo + j ==> !#[trigger] pattern(s1, e1, i1, x) {
            assert forall|x: int| lo <= x < lo + j implies (#[trigger] a2[x]) < t by {
                assert(!pattern(s1, e1, i1, x));
            }
        } else {
            assert forall|y: int| lo + j <= y < lo + 2 * j implies (#[trigger] a2[y]) >= t by {
                let x = y - j;
                assert((a2[x] >= t) == pattern(s1, e1, i1, x));
                assert(pattern(s2, e2, i2, x));
            }
        }
    } else {
        assert(band(a2, lo, j, t, s2, e2, i2));
        assert(band(a2, lo + j, j, t, s1 + j, e1 + j, i1)) by {
            assert forall|y: int| lo + j <= y < lo + 2 * j implies ((#[trigger] a2[y]) >= t)
                == pattern(s1 + j, e1 + j, i1, y) by {
                let x = y - j;
                assert((a2[x] >= t) == pattern(s2, e2, i2, x));
                assert(pattern(s1, e1, i1, x) == pattern(s1 + j, e1 + j, i1, y));
            }
        }
        if forall|x: int| lo <= x < lo + j ==> !#[trigger] pattern(s1, e1, i1, x) {
            assert forall|y: int| lo + j <= y < lo + 2 * j implies (#[trigger] a2[y]) < t by {
                let x = y - j;
                assert((a2[x] >= t) == pattern(s2, e2, i2, x));
                assert(!pattern(s1, e1, i1, x));
            }
        } else {
            assert forall|x: int| lo <= x < lo + j implies (#[trigger] a2[x]) >= t by {
                assert(pattern(s2, e2, i2, x));
            }
        }
    }
}

/// The split: the exchange of a bitonic block of `2j` slots leaves two
/// bitonic halves, every slot of one at most every slot of the other.
pub proof fn lemma_split(a: Seq<u64>, a2: Seq<u64>, lo: int, j: int, d: bool)
    requires
        j >= 1,
        0 <= lo,
        lo + 2 * j <= a.len(),
        a2.len() == a.len(),
        exchanged(a, a2, lo, j, d),
        bitonic(a, lo, 2 * j),
    ensures
        bitonic(a2, lo, j),
        bitonic(a2, lo + j, j),
        cross(a2, lo, j, d),
{
    let hi = lo + j;
    assert forall|t: u64| #[trigger] banded(a2, lo, j, t) by {
        assert(banded(a, lo, 2 * j, t));
        lemma_split_at(a, a2, lo, j, d, t);
    }
    assert forall|t: u64| #[trigger] banded(a2, hi, j, t) by {
        assert(banded(a, lo, 2 * j, t));
        lemma_split_at(a, a2, lo, j, d, t);
    }
    assert forall|u: int, v: int| lo <= u < lo + j && lo + j <= v < lo + 2 * j implies if d {
        #[trigger] a2[u] <= #[trigger] a2[v]
    } else {
        a2[u] >= a2[v]
    } by {
        let t = if d { a2[u] } else { a2[v] };
        assert(banded(a, lo, 2 * j, t));
        lemma_split_at(a, a2, lo, j, d, t);
    }
}

/// A block of one or two slots is bitonic.
pub proof fn lemma_bitonic_small(a: Seq<u64>, lo: int, len: int)
    requires
        0 <= lo,
        1 <= len <= 2,
        lo + len <= a.len(),
    ensures
        bitonic(a, lo, len),
{
    assert forall|t: u64| #[trigger] banded(a, lo, len, t) by {
        let first = a[lo] >= t;
        let last = a[lo + len - 1] >= t;
        if first && last {
            assert(band(a, lo, len, t, lo, lo + len, false));
        } else if first {
            assert(band(a, lo, len, t, lo, lo + 1, false));
        } else if last {
            assert(band(a, lo, len, t, lo + len - 1, lo + len, false));
        } else {
            assert(band(a, lo, len, t, lo, lo, false));
        }
    }
}

/// In a block that ascends, the slots at or above a threshold are an upper
/// part; in one that descends, a lower part.
pub proof fn lemma_split_point(a: Seq<u64>, lo: int, len: int, d: bool, t: u64) -> (p: int)
    requires
        0 <= lo,
        0 <= len,
        lo + len <= a.len(),
        mono(a, lo, len, d),
    ensures
        lo <= p <= lo + len,
        forall|x: int| lo <= x < p ==> ((#[trigger] a[x]) >= t) == !d,
        forall|x: int| p <= x < lo + len ==> ((#[trigger] a[x]) >= t) == d,
    decreases len,
{
    if len == 0 {
        lo
    } else {
        let last = lo + len - 1;
        assert(mono(a, lo, len - 1, d));
        if (a[last] >= t) == d {
            let p = lemma_split_point(a, lo, len - 1, d, t);
            p
        } else {
            assert forall|x: int| lo <= x < lo + len implies ((#[trigger] a[x]) >= t) == !d by {
                if x < last {
                    assert(if d { a[x] <= a[last] } else { a[x] >= a[last] });
                }
            }
            lo + len
        }
    }
}

/// A block whose lower half ascends and whose upper half descends is
/// bitonic.
pub proof fn lemma_updown(a: Seq<u64>, lo: int, k: int)
    requires
        0 <= lo,
        0 <= k,
        lo + 2 * k <= a.len(),
        mono(a, lo, k, true),
        mono(a, lo + k, k, false),
    ensures
        bitonic(a, lo, 2 * k),
{
    assert forall|t: u64| #[trigger] banded(a, lo, 2 * k, t) by {
        let s = lemma_split_point(a, lo, k, true, t);
        let e = lemma_split_point(a, lo + k, k, false, t);
        assert(band(a, lo, 2 * k, t, s, e, false));
    }
}

/// Half of a power of two above 1 is a power of two.
pub proof fn lemma_pow2b_half(x: u32)
    by (bit_vector)
    requires
        x > 0 && (x & ((x - 1) as u32)) == 0,
        x >= 2,
    ensures
        (x / 2) > 0 && ((x / 2) & ((x / 2 - 1) as u32)) == 0,
        2 * (x / 2) == x,
{
}

/// Twice a power of two is a power of two.
pub proof fn lemma_pow2b_double(x: u32)
    by (bit_vector)
    requires
        x > 0 && (x & ((x - 1) as u32)) == 0,
        x <= 0x4000_0000,
    ensures
        (2 * x) as u32 > 0 && ((2 * x) as u32 & ((2 * x - 1) as u32)) == 0,
{
}

/// Slot 0 is aligned to every block size, and 1 and 2 are powers of two.
pub proof fn lemma_zero_aligned(size: u32)
    by (bit_vector)
    ensures
        (0u32 & ((size - 1) as u32)) == 0,
        (0u32 & size) == 0,
        (1u32 & ((1u32 - 1) as u32)) == 0,
        (2u32 & ((2u32 - 1) as u32)) == 0,
{
}

/// `size` is a power of two that a batch can have.
pub open spec fn block_size(size: int) -> bool {
    0 < size <= 0x8000_0000 && pow2b(size as u32)
}

/// The slot `lo` starts an aligned block of `size` slots.
pub open spec fn block_start(lo: int, size: int) -> bool {
    aligned(lo as u32, size as u32)
}

/// Whether a pair with lower slot `x` is put in ascending order in stage `k`.
pub open spec fn asc_at(x: int, k: u32) -> bool {
    ((x as u32) & k) == 0
}

/// Every pair of the block is ordered in the direction `d` in stage `k`.
pub open spec fn dir_ok(lo: int, size: int, k: u32, d: bool) -> bool {
    forall|x: int| lo <= x < lo + size ==> #[trigger] asc_at(x, k) == d
}

/// The value `v` stands in the block.
pub open spec fn found_in(a: Seq<u64>, lo: int, size: int, v: u64) -> bool {
    exists|y: int| lo <= y < lo + size && #[trigger] a[y] == v
}

/// Every value of the block of `a2` stands in the same block of `a`.
pub open spec fn within(a: Seq<u64>, a2: Seq<u64>, lo: int, size: int) -> bool {
    forall|x: int| lo <= x < lo + size ==> found_in(a, lo, size, #[trigger] a2[x])
}

/// The block consists of bitonic blocks of `w` slots that are ordered among
/// each other in the direction `d`.
pub open spec fn ordered(a: Seq<u64>, lo: int, size: int, w: int, d: bool) -> bool
    decreases size,
{
    if size <= w || size <= 1 {
        bitonic(a, lo, size)
    } else {
        ordered(a, lo, size / 2, w, d) && ordered(a, lo + size / 2, size / 2, w, d) && cross(
            a,
            lo,
            size / 2,
            d,
        )
    }
}

/// The block consists of blocks of `k` slots, in turn ascending and
/// descending, each made of bitonic blocks of `w` slots ordered among each
/// other.  A block of `k` slots by itself ascends.
pub open spec fn staged(a: Seq<u64>, lo: int, size: int, k: int, w: int) -> bool
    decreases size,
{
    if size <= k || size <= 1 {
        ordered(a, lo, size, w, true)
    } else if size == 2 * k {
        ordered(a, lo, k, w, true) && ordered(a, lo + k, k, w, false)
    } else {
        staged(a, lo, size / 2, k, w) && staged(a, lo + size / 2, size / 2, k, w)
    }
}

/// The facts about one pass that every step of the argument uses.
pub open spec fn pass_ctx(a: Seq<u64>, a2: Seq<u64>, k: u32, j: u32) -> bool {
    &&& a2 == bitonic_pass(a, k, j)
    &&& a.len() <= 0x8000_0000
    &&& pow2b(j)
    &&& pow2b(k)
    &&& j < k
    &&& k <= 0x8000_0000
}

/// On an aligned block of `2j` slots the pass is the exchange of the two
/// halves.
pub proof fn lemma_block_exchanged(a: Seq<u64>, a2: Seq<u64>, k: u32, j: u32, lo: int, d: bool)
    requires
        pass_ctx(a, a2, k, j),
        0 <= lo,
        lo + 2 * j <= a.len(),
        block_start(lo, 2 * j),
        dir_ok(lo, 2 * j, k, d),
    ensures
        exchanged(a, a2, lo, j as int, d),
        within(a, a2, lo, 2 * j),
{
    lemma_pow2b_gap(j, k);
    assert forall|x: int| lo <= x < lo + j implies (#[trigger] a2[x]) == (if (a[x] <= a[x + j])
        == d {
        a[x]
    } else {
        a[x + j]
    }) && a2[x + j] == (if (a[x] <= a[x + j]) == d {
        a[x + j]
    } else {
        a[x]
    }) by {
        let y = x + j;
        lemma_partner(lo as u32, j, x as u32);
        lemma_partner(lo as u32, j, y as u32);
        assert(((x as u32) ^ j) as int == y);
        assert(((y as u32) ^ j) as int == x);
        assert(asc_at(x, k) == d);
        assert(a2[x] == pass_value(a, k, j, x));
        assert(a2[y] == pass_value(a, k, j, y));
    }
    assert forall|x: int| lo <= x < lo + 2 * j implies found_in(a, lo, 2 * j, #[trigger] a2[x]) by {
        if x < lo + j {
            let y = x + j;
            assert(a2[x] == a[x] || a2[x] == a[y]);
        } else {
            let y = x - j;
            assert(a2[y] == a[y] || a2[y] == a[y + j]);
            assert(a2[x] == a[x] || a2[x] == a[y]);
        }
    }
}

/// Values that stay in the two halves stay in the block.
pub proof fn lemma_within_halves(a: Seq<u64>, a2: Seq<u64>, lo: int, half: int)
    requires
        half >= 0,
        within(a, a2, lo, half),
        within(a, a2, lo + half, half),
    ensures
        within(a, a2, lo, 2 * half),
{
    assert forall|x: int| lo <= x < lo + 2 * half implies found_in(a, lo, 2 * half, #[trigger] a2[x]) by {
        if x < lo + half {
            assert(found_in(a, lo, half, a2[x]));
            let y = choose|y: int| lo <= y < lo + half && #[trigger] a[y] == a2[x];
            assert(a[y] == a2[x]);
        } else {
            assert(found_in(a, lo + half, half, a2[x]));
            let y = choose|y: int| lo + half <= y < lo + half + half && #[trigger] a[y] == a2[x];
            assert(a[y] == a2[x]);
        }
    }
}

/// Two halves that were ordered against each other stay so when values move
/// only within each half.
pub proof fn lemma_cross_kept(a: Seq<u64>, a2: Seq<u64>, lo: int, half: int, d: bool)
    requires
        half >= 0,
        cross(a, lo, half, d),
        within(a, a2, lo, half),
        within(a, a2, lo + half, half),
    ensures
        cross(a2, lo, half, d),
{
    assert forall|u: int, v: int| lo <= u < lo + half && lo + half <= v < lo + 2 * half implies if d {
        #[trigger] a2[u] <= #[trigger] a2[v]
    } else {
        a2[u] >= a2[v]
    } by {
        assert(found_in(a, lo, half, a2[u]));
        assert(found_in(a, lo + half, half, a2[v]));
        let u0 = choose|y: int| lo <= y < lo + half && #[trigger] a[y] == a2[u];
        let v0 = choose|y: int| lo + half <= y < lo + half + half && #[trigger] a[y] == a2[v];
        assert(if d { a[u0] <= a[v0] } else { a[u0] >= a[v0] });
    }
}

/// A direction that holds on a block holds on its halves.
pub proof fn lemma_dir_halves(lo: int, half: int, k: u32, d: bool)
    requires
        half >= 0,
        dir_ok(lo, 2 * half, k, d),
    ensures
        dir_ok(lo, half, k, d),
        dir_ok(lo + half, half, k, d),
{
    assert forall|x: int| lo <= x < lo + half implies #[trigger] asc_at(x, k) == d by {}
    assert forall|x: int| lo + half <= x < lo + half + half implies #[trigger] asc_at(x, k) == d by {}
}

/// A pass of distance `j` turns blocks of `2j` bitonic slots, ordered among
/// each other, into blocks of `j` bitonic slots, ordered among each other.
pub proof fn lemma_pass_ordered(
    a: Seq<u64>,
    a2: Seq<u64>,
    k: u32,
    j: u32,
    lo: int,
    size: int,
    d: bool,
)
    requires
        pass_ctx(a, a2, k, j),
        0 <= lo,
        lo + size <= a.len(),
        block_size(size),
        size >= 2 * j,
        block_start(lo, size),
        dir_ok(lo, size, k, d),
        ordered(a, lo, size, 2 * j, d),
    ensures
        ordered(a2, lo, size, j as int, d),
        within(a, a2, lo, size),
    decreases size,
{
    lemma_pow2b_gap(j, k);
    let half = size / 2;
    lemma_pow2b_half(size as u32);
    if size == 2 * j {
        lemma_block_exchanged(a, a2, k, j, lo, d);
        lemma_split(a, a2, lo, j as int, d);
        assert(ordered(a2, lo, j as int, j as int, d));
        assert(ordered(a2, lo + j, j as int, j as int, d));
    } else {
        lemma_pow2b_double(j);
        lemma_pow2b_gap((2 * j) as u32, size as u32);
        lemma_halves(lo as u32, half as u32);
        lemma_dir_halves(lo, half, k, d);
        assert(ordered(a, lo, half, 2 * j, d));
        assert(ordered(a, lo + half, half, 2 * j, d));
        assert(cross(a, lo, half, d));
        lemma_pass_ordered(a, a2, k, j, lo, half, d);
        lemma_pass_ordered(a, a2, k, j, lo + half, half, d);
        lemma_cross_kept(a, a2, lo, half, d);
        lemma_within_halves(a, a2, lo, half);
    }
}

/// The same for the whole stage: every block of `k` slots in its own
/// direction.
pub proof fn lemma_pass_staged(a: Seq<u64>, a2: Seq<u64>, k: u32, j: u32, lo: int, size: int)
    requires
        pass_ctx(a, a2, k, j),
        0 <= lo,
        lo + size <= a.len(),
        block_size(size),
        size >= k,
        block_start(lo, size),
        size == k ==> lo == 0,
        staged(a, lo, size, k as int, 2 * j),
    ensures
        staged(a2, lo, size, k as int, j as int),
    decreases size,
{
    lemma_pow2b_gap(j, k);
    let half = size / 2;
    lemma_pow2b_half(size as u32);
    if size == k {
        lemma_zero_aligned(k);
        assert forall|x: int| 0 <= x < k implies #[trigger] asc_at(x, k) == true by {
            lemma_direction(0, k, x as u32);
        }
        lemma_pass_ordered(a, a2, k, j, lo, size, true);
    } else if size == 2 * k {
        lemma_halves(lo as u32, k);
        assert forall|x: int| lo <= x < lo + k implies #[trigger] asc_at(x, k) == true by {
            lemma_direction(lo as u32, k, x as u32);
        }
        assert forall|x: int| lo + k <= x < lo + k + k implies #[trigger] asc_at(x, k) == false by {
            lemma_direction((lo + k) as u32, k, x as u32);
        }
        lemma_pass_ordered(a, a2, k, j, lo, k as int, true);
        lemma_pass_ordered(a, a2, k, j, lo + k, k as int, false);
    } else {
        lemma_pow2b_gap(k, size as u32);
        lemma_pow2b_gap(k, half as u32);
        lemma_halves(lo as u32, half as u32);
        lemma_pass_staged(a, a2, k, j, lo, half);
        lemma_pass_staged(a, a2, k, j, lo + half, half);
    }
}

/// Blocks of one slot that are ordered among each other are an ascending or
/// a descending block.
pub proof fn lemma_ordered_mono(a: Seq<u64>, lo: int, size: int, d: bool)
    requires
        block_size(size),
        ordered(a, lo, size, 1, d),
    ensures
        mono(a, lo, size, d),
    decreases size,
{
    if size >= 2 {
        let half = size / 2;
        lemma_pow2b_half(size as u32);
        lemma_ordered_mono(a, lo, half, d);
        lemma_ordered_mono(a, lo + half, half, d);
        assert(cross(a, lo, half, d));
    }
}

/// The end of a stage is the start of the next: blocks of `k` slots that in
/// turn ascend and descend are bitonic blocks of `2k` slots.
pub proof fn lemma_next_stage(a: Seq<u64>, lo: int, size: int, k: int)
    requires
        0 <= lo,
        lo + size <= a.len(),
        block_size(size),
        block_size(k),
        size >= 2 * k,
        staged(a, lo, size, k, 1),
    ensures
        staged(a, lo, size, 2 * k, 2 * k),
    decreases size,
{
    let half = size / 2;
    lemma_pow2b_half(size as u32);
    if size == 2 * k {
        lemma_ordered_mono(a, lo, k, true);
        lemma_ordered_mono(a, lo + k, k, false);
        lemma_updown(a, lo, k);
    } else {
        lemma_pow2b_gap(k as u32, size as u32);
        lemma_pow2b_gap(k as u32, half as u32);
        lemma_next_stage(a, lo, half, k);
        lemma_next_stage(a, lo + half, half, k);
        if size == 4 * k {
            assert(ordered(a, lo, half, 2 * k, true));
            assert(ordered(a, lo + half, half, 2 * k, true));
            assert(bitonic(a, lo + half, half));
            assert(ordered(a, lo + half, half, 2 * k, false));
        }
    }
}

/// Any array is ready for the first stage: blocks of two slots are bitonic.
pub proof fn lemma_first_stage(a: Seq<u64>, lo: int, size: int)
    requires
        0 <= lo,
        lo + size <= a.len(),
        block_size(size),
        size >= 2,
    ensures
        staged(a, lo, size, 2, 2),
    decreases size,
{
    let half = size / 2;
    lemma_pow2b_half(size as u32);
    if size == 2 {
        lemma_bitonic_small(a, lo, 2);
    } else {
        lemma_zero_aligned(0);
        assert(pow2b(2));
        lemma_pow2b_gap(2, size as u32);
        if size == 4 {
            lemma_bitonic_small(a, lo, 2);
            lemma_bitonic_small(a, lo + 2, 2);
        } else {
            lemma_pow2b_gap(2, half as u32);
            lemma_first_stage(a, lo, half);
            lemma_first_stage(a, lo + half, half);
        }
    }
}

} // verus!
