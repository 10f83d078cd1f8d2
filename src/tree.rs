//! The implicit balanced binary tree shared by the ranking and selection trees.
//!
//! Over `L = 2^p` leaves, node `k` (`0 < k < L`) sits at level `h` when `k` is an odd
//! multiple of `2^h`. Its left subtree covers the values `[k - 2^h, k)` and its right
//! subtree `[k, k + 2^h)`; the root is `L / 2`. Each node keeps one counter about its
//! left subtree.
use vstd::prelude::*;
use vstd::arithmetic::div_mod::{lemma_fundamental_div_mod, lemma_mod_mod};
use vstd::arithmetic::power2::{lemma_pow2_adds, lemma_pow2_pos, lemma_pow2_unfold, pow2};
use vstd::bits::{lemma_u32_shl_is_mul, lemma_u64_shl_is_mul};
use vstd::std_specs::bits::{axiom_u32_trailing_zeros, u32_trailing_zeros};

verus! {

/// Number of entries of `b` in `[lo, hi)` that are set.
pub open spec fn count_in(b: Seq<bool>, lo: int, hi: int) -> nat
    decreases hi - lo,
{
    if hi <= lo {
        0
    } else {
        count_in(b, lo, hi - 1) + if b[hi - 1] {
            1nat
        } else {
            0nat
        }
    }
}

/// Node `k` sits at level `h`: its subtrees hold `2^h` leaves each.
pub open spec fn is_level(k: int, h: nat) -> bool {
    k > 0 && k % (pow2(h + 1) as int) == pow2(h) as int
}

pub proof fn lemma_count_split(b: Seq<bool>, lo: int, mid: int, hi: int)
    requires
        lo <= mid <= hi,
    ensures
        count_in(b, lo, hi) == count_in(b, lo, mid) + count_in(b, mid, hi),
    decreases hi - mid,
{
    if hi > mid {
        lemma_count_split(b, lo, mid, hi - 1);
    }
}

pub proof fn lemma_count_bound(b: Seq<bool>, lo: int, hi: int)
    ensures
        count_in(b, lo, hi) <= if hi >= lo {
            hi - lo
        } else {
            0
        },
    decreases hi - lo,
{
    if hi > lo {
        lemma_count_bound(b, lo, hi - 1);
    }
}

/// Setting entry `i`, which was clear, adds one to the counts of the ranges holding `i`.
pub proof fn lemma_count_set(b: Seq<bool>, i: int, lo: int, hi: int)
    requires
        0 <= i < b.len(),
        !b[i],
        0 <= lo,
        hi <= b.len(),
    ensures
        count_in(b.update(i, true), lo, hi) == count_in(b, lo, hi) + if lo <= i < hi {
            1nat
        } else {
            0nat
        },
    decreases hi - lo,
{
    if hi > lo {
        lemma_count_set(b, i, lo, hi - 1);
    }
}

/// Clear entries count nothing.
pub proof fn lemma_count_clear(b: Seq<bool>, lo: int, hi: int)
    requires
        forall|i: int| lo <= i < hi ==> !b[i],
    ensures
        count_in(b, lo, hi) == 0,
    decreases hi - lo,
{
    if hi > lo {
        lemma_count_clear(b, lo, hi - 1);
    }
}

/// Set entries count one each.
pub proof fn lemma_count_full(b: Seq<bool>, lo: int, hi: int)
    requires
        lo <= hi,
        forall|i: int| lo <= i < hi ==> b[i],
    ensures
        count_in(b, lo, hi) == hi - lo,
    decreases hi - lo,
{
    if hi > lo {
        lemma_count_full(b, lo, hi - 1);
    }
}

/// Two blocks of `m` aligned on multiples of `m` that share a point are the same block.
pub proof fn lemma_aligned_unique(a: int, c: int, m: int, x: int)
    requires
        m > 0,
        a >= 0,
        c >= 0,
        a % m == 0,
        c % m == 0,
        a <= x < a + m,
        c <= x < c + m,
    ensures
        a == c,
{
    lemma_fundamental_div_mod(a, m);
    lemma_fundamental_div_mod(c, m);
    let qa = a / m;
    let qc = c / m;
    assert(qa == qc) by (nonlinear_arith)
        requires
            a == m * qa,
            c == m * qc,
            a <= x < a + m,
            c <= x < c + m,
            m > 0,
    ;
}

/// `2^h` divides `2^g` when `h <= g`.
pub proof fn lemma_pow2_divides(h: nat, g: nat)
    requires
        h <= g,
    ensures
        pow2(g) % pow2(h) == 0,
        pow2(h) <= pow2(g),
{
    lemma_pow2_adds(h, (g - h) as nat);
    lemma_pow2_pos(h);
    lemma_pow2_pos((g - h) as nat);
    let a = pow2(h) as int;
    let q = pow2((g - h) as nat) as int;
    assert((q * a) % a == 0) by {
        vstd::arithmetic::div_mod::lemma_mod_multiples_basic(q, a);
    }
    assert(a * q == q * a) by (nonlinear_arith);
    assert(a <= a * q) by (nonlinear_arith)
        requires
            q >= 1,
            a >= 1,
    ;
}

/// A node has one level only.
pub proof fn lemma_level_unique(k: int, h: nat, g: nat)
    requires
        is_level(k, h),
        is_level(k, g),
    ensures
        h == g,
{
    if h < g {
        lemma_level_below(k, h, g);
    } else if g < h {
        lemma_level_below(k, g, h);
    }
}

proof fn lemma_level_below(k: int, h: nat, g: nat)
    requires
        h < g,
        is_level(k, g),
    ensures
        !is_level(k, h),
{
    // k % 2^(h+1) == (k % 2^(g+1)) % 2^(h+1) == 2^g % 2^(h+1) == 0
    lemma_pow2_adds(h + 1, (g - h) as nat);
    lemma_pow2_pos(h + 1);
    lemma_pow2_pos((g - h) as nat);
    lemma_mod_mod(k, pow2(h + 1) as int, pow2((g - h) as nat) as int);
    lemma_pow2_divides(h + 1, g);
    lemma_pow2_pos(h);
}

/// The node in the middle of an aligned block of `2^(h+1)` values sits at level `h`, and
/// the blocks of its two children are aligned one level down.
pub proof fn lemma_block_node(lo: int, h: nat)
    requires
        lo >= 0,
        lo % (pow2(h + 1) as int) == 0,
    ensures
        is_level(lo + pow2(h), h),
        lo % (pow2(h) as int) == 0,
        (lo + pow2(h)) % (pow2(h) as int) == 0,
        pow2(h + 1) == 2 * pow2(h),
{
    lemma_pow2_unfold(h + 1);
    lemma_pow2_pos(h);
    let m = pow2(h) as int;
    lemma_fundamental_div_mod(lo, 2 * m);
    let q = lo / (2 * m);
    assert(lo == m * (2 * q)) by (nonlinear_arith)
        requires
            lo == (2 * m) * q,
    ;
    vstd::arithmetic::div_mod::lemma_mod_multiples_basic(2 * q, m);
    assert((2 * q) * m == m * (2 * q)) by (nonlinear_arith);
    vstd::arithmetic::div_mod::lemma_mod_multiples_basic(2 * q + 1, m);
    assert((2 * q + 1) * m == lo + m) by (nonlinear_arith)
        requires
            lo == m * (2 * q),
    ;
    vstd::arithmetic::div_mod::lemma_fundamental_div_mod_converse(lo + m, 2 * m, q, m);
}

/// A node at level `h` is an odd multiple of `2^h`, so its left subtree starts at or above
/// zero and the block of its two subtrees is aligned.
pub proof fn lemma_level_block(k: int, h: nat)
    requires
        is_level(k, h),
    ensures
        k >= pow2(h),
        (k - pow2(h)) % (pow2(h + 1) as int) == 0,
{
    lemma_pow2_unfold(h + 1);
    lemma_pow2_pos(h);
    let m = pow2(h + 1) as int;
    lemma_fundamental_div_mod(k, m);
    let q = k / m;
    assert(q >= 0) by (nonlinear_arith)
        requires
            k > 0,
            m > 0,
            q == k / m,
    ;
    assert(m * q >= 0) by (nonlinear_arith)
        requires
            q >= 0,
            m > 0,
    ;
    vstd::arithmetic::div_mod::lemma_mod_multiples_basic(q, m);
    assert(q * m == m * q) by (nonlinear_arith);
}

/// The trailing zeros of a node index give its level.
pub proof fn lemma_trailing_zeros_level(i: u32)
    requires
        i != 0,
    ensures
        u32_trailing_zeros(i) < 32,
        is_level(i as int, u32_trailing_zeros(i) as nat),
        (1u32 << u32_trailing_zeros(i)) == pow2(u32_trailing_zeros(i) as nat),
{
    axiom_u32_trailing_zeros(i);
    let t = u32_trailing_zeros(i);
    let w = i as u64;
    let t64 = t as u64;
    let mask = vstd::prelude::sub(1u64 << vstd::prelude::add(t64, 1u64), 1u64);
    assert(w & mask == (1u64 << t64)) by (bit_vector)
        requires
            t < 32,
            t64 == t as u64,
            w == i as u64,
            mask == vstd::prelude::sub(1u64 << vstd::prelude::add(t64, 1u64), 1u64),
            (i >> t) & 1u32 == 1u32,
            i << vstd::prelude::sub(32u32, t) == 0,
    ;
    vstd::bits::lemma_u64_low_bits_mask_is_mod(w, (t + 1) as nat);
    vstd::arithmetic::power2::lemma2_to64();
    vstd::arithmetic::power2::lemma2_to64_rest();
    if t < 31 {
        vstd::arithmetic::power2::lemma_pow2_strictly_increases(t as nat, 31);
    }
    vstd::arithmetic::power2::lemma_pow2_strictly_increases((t + 1) as nat, 63);
    lemma_u64_shl_is_mul(1, (t64 + 1) as u64);
    lemma_u64_shl_is_mul(1, t64);
    lemma_u32_shl_is_mul(1, t);
}

/// Bit facts behind moving from a node to its parent: a node whose index, shifted by its
/// level, ends in binary `01` is a left child and its parent lies `2^t` above; one that ends
/// in `11` is a right child and its parent lies `2^t` below, which is the index with its
/// lowest set bit cleared.
pub proof fn lemma_parent_bits(node: u32, t: u32)
    requires
        t < 32,
        node != 0x8000_0000,
        (node >> t) & 1u32 == 1u32,
        node << vstd::prelude::sub(32u32, t) == 0,
    ensures
        (node >> t) & 3u32 == 1u32 ==> (node as u64 + (1u64 << t as u64)) < 0x1_0000_0000
            && (vstd::prelude::add(node as u64, 1u64 << t as u64) & vstd::prelude::sub(
            1u64 << vstd::prelude::add(t as u64, 2u64),
            1u64,
        )) == 1u64 << vstd::prelude::add(t as u64, 1u64),
        (node >> t) & 3u32 != 1u32 ==> node & vstd::prelude::sub(node, 1u32) == vstd::prelude::sub(
            node,
            1u32 << t,
        ) && (vstd::prelude::sub(node as u64, 1u64 << t as u64) & vstd::prelude::sub(
            1u64 << vstd::prelude::add(t as u64, 2u64),
            1u64,
        )) == 1u64 << vstd::prelude::add(t as u64, 1u64) && (1u32 << t) <= node,
{
    assert((node >> t) & 3u32 == 1u32 ==> (node as u64 + (1u64 << t as u64)) < 0x1_0000_0000
        && (vstd::prelude::add(node as u64, 1u64 << t as u64) & vstd::prelude::sub(
        1u64 << vstd::prelude::add(t as u64, 2u64),
        1u64,
    )) == 1u64 << vstd::prelude::add(t as u64, 1u64)) by (bit_vector)
        requires
            t < 32,
            node != 0x8000_0000,
            (node >> t) & 1u32 == 1u32,
            node << vstd::prelude::sub(32u32, t) == 0,
    ;
    assert((node >> t) & 3u32 != 1u32 ==> node & vstd::prelude::sub(node, 1u32)
        == vstd::prelude::sub(node, 1u32 << t) && (vstd::prelude::sub(
        node as u64,
        1u64 << t as u64,
    ) & vstd::prelude::sub(1u64 << vstd::prelude::add(t as u64, 2u64), 1u64)) == 1u64
        << vstd::prelude::add(t as u64, 1u64) && (1u32 << t) <= node) by (bit_vector)
        requires
            t < 32,
            (node >> t) & 1u32 == 1u32,
            node << vstd::prelude::sub(32u32, t) == 0,
    ;
}

/// An aligned block that starts below an aligned bound ends at or below it.
pub proof fn lemma_aligned_below(a: int, m: int, bound: int)
    requires
        m > 0,
        0 <= a < bound,
        a % m == 0,
        bound % m == 0,
    ensures
        a + m <= bound,
{
    lemma_fundamental_div_mod(a, m);
    lemma_fundamental_div_mod(bound, m);
    let qa = a / m;
    let qb = bound / m;
    assert(a + m <= bound) by (nonlinear_arith)
        requires
            a == m * qa,
            bound == m * qb,
            a < bound,
            m > 0,
    ;
}

/// Number of clear entries of `b` in `[lo, hi)`.
pub open spec fn free_in(b: Seq<bool>, lo: int, hi: int) -> int {
    (hi - lo) - count_in(b, lo, hi)
}

/// Below any count of clear entries there is a clear entry with exactly that many clear
/// entries before it.
pub proof fn lemma_select_exists(b: Seq<bool>, d: int, hi: int)
    requires
        0 <= d < free_in(b, 0, hi),
    ensures
        exists|t: int| 0 <= t < hi && !b[t] && #[trigger] free_in(b, 0, t) == d,
    decreases hi,
{
    lemma_count_bound(b, 0, hi);
    if d < free_in(b, 0, hi - 1) {
        lemma_select_exists(b, d, hi - 1);
    } else {
        assert(!b[hi - 1] && free_in(b, 0, hi - 1) == d);
    }
}

/// For a clear entry `t` with `d` clear entries before it, `d` reaches the clear entries
/// below `k` exactly when `t` lies at or above `k`.
pub proof fn lemma_select_side(b: Seq<bool>, t: int, k: int)
    requires
        0 <= t,
        0 <= k,
        !b[t],
    ensures
        free_in(b, 0, t) >= free_in(b, 0, k) <==> t >= k,
{
    if t >= k {
        lemma_count_split(b, 0, k, t);
        lemma_count_bound(b, k, t);
    } else {
        lemma_count_split(b, 0, t + 1, k);
        lemma_count_bound(b, t + 1, k);
        assert(count_in(b, 0, t + 1) == count_in(b, 0, t));
    }
}

} // verus!
