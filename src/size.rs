//! The byte length of a code: an upper bound on the bytes of `N! - 1`.
//!
//! `N!` is bounded from above by `m * 2^e` with a mantissa `m` kept below `2^63`: each
//! factor is multiplied in and the mantissa is halved, rounding up, until it fits again.
//! Rounding up only ever grows the bound, so the size is never too small.
use vstd::prelude::*;
use vstd::arithmetic::power2::{lemma_pow2_adds, lemma_pow2_pos, lemma_pow2_unfold, pow2};
use crate::bignum::{lemma_pow256_monotonic, pow256};
use crate::radix::factorial;

verus! {

/// The largest mantissa kept between factors.
pub const MANTISSA_MAX: u128 = 0x7fff_ffff_ffff_ffff;

/// Halves `m` (rounding up) and counts the halvings in `e`, until `m <= limit`.
pub open spec fn halve_until(m: nat, e: nat, limit: nat) -> (nat, nat)
    decreases m,
{
    if m <= limit || m <= 1 {
        (m, e)
    } else {
        halve_until((m + 1) / 2, e + 1, limit)
    }
}

/// The mantissa and exponent of the rounded-up bound on `n!`.
pub open spec fn factorial_bound(n: nat) -> (nat, nat)
    decreases n,
{
    if n <= 1 {
        (1, 0)
    } else {
        let (m, e) = factorial_bound((n - 1) as nat);
        halve_until(m * n, e, MANTISSA_MAX as nat)
    }
}

/// Bits of the rounded-up bound on `n!`: `n! <= 2^factorial_bits(n)`.
pub open spec fn factorial_bits(n: nat) -> nat {
    halve_until(factorial_bound(n).0, factorial_bound(n).1, 1).1
}

/// Spare bytes added for large sequences, so that the sizes agree with codes written by
/// estimators of lesser precision.
pub open spec fn size_padding(n: nat) -> nat {
    if n < 4000 {
        0
    } else if n < 1_000_000 {
        2
    } else {
        32
    }
}

/// Sequences of `n` values are too long for this library: their length does not fit in
/// 32 bits, or their trees or their code would not fit in memory.
pub open spec fn too_long(n: nat) -> bool {
    n > u32::MAX || n > usize::MAX / 2 + 1 || encode_size(n) > usize::MAX
}

/// Byte length of the code of a permutation of `n` values.
pub open spec fn encode_size(n: nat) -> nat {
    if n == 0 {
        0
    } else {
        (factorial_bits(n) + 7) / 8 + size_padding(n)
    }
}

/// Halving never lowers the bound `m * 2^e`.
pub proof fn lemma_halve_until(m: nat, e: nat, limit: nat)
    requires
        m >= 1,
    ensures
        m * pow2(e) <= halve_until(m, e, limit).0 * pow2(halve_until(m, e, limit).1),
        1 <= halve_until(m, e, limit).0 <= m,
        halve_until(m, e, limit).0 <= limit || halve_until(m, e, limit).0 <= 1,
    decreases m,
{
    if !(m <= limit || m <= 1) {
        let h = (m + 1) / 2;
        lemma_halve_until(h, e + 1, limit);
        lemma_pow2_unfold(e + 1);
        lemma_pow2_pos(e);
        assert(m * pow2(e) <= h * pow2(e + 1)) by (nonlinear_arith)
            requires
                pow2(e + 1) == 2 * pow2(e),
                2 * h >= m,
                pow2(e) > 0,
        ;
    }
}

/// The bound holds: `n! <= m * 2^e`, with `1 <= m <= MANTISSA_MAX`.
pub proof fn lemma_factorial_bound(n: nat)
    ensures
        factorial(n) <= factorial_bound(n).0 * pow2(factorial_bound(n).1),
        1 <= factorial_bound(n).0 <= MANTISSA_MAX,
    decreases n,
{
    vstd::arithmetic::power2::lemma2_to64();
    if n <= 1 {
        assert(factorial(0) == 1);
        assert(factorial(1) == 1 * factorial(0));
    } else {
        let (m, e) = factorial_bound((n - 1) as nat);
        lemma_factorial_bound((n - 1) as nat);
        lemma_pow2_pos(e);
        assert(factorial(n) <= (m * n) * pow2(e)) by (nonlinear_arith)
            requires
                factorial(n) == n * factorial((n - 1) as nat),
                factorial((n - 1) as nat) <= m * pow2(e),
                n >= 2,
        ;
        assert(m * n >= 1) by (nonlinear_arith)
            requires
                m >= 1,
                n >= 2,
        ;
        lemma_halve_until(m * n, e, MANTISSA_MAX as nat);
    }
}

pub proof fn lemma_pow256_pow2(k: nat)
    ensures
        pow256(k) == pow2(8 * k),
    decreases k,
{
    if k > 0 {
        lemma_pow256_pow2((k - 1) as nat);
        lemma_pow2_adds(8, 8 * (k - 1) as nat);
        vstd::arithmetic::power2::lemma2_to64();
    } else {
        vstd::arithmetic::power2::lemma2_to64();
    }
}

/// The code of any permutation of `n` values fits in `encode_size(n)` bytes: `n! <=
/// 256^encode_size(n)`.
pub proof fn lemma_encode_size_bound(n: nat)
    ensures
        factorial(n) <= pow256(encode_size(n)),
{
    if n == 0 {
        assert(factorial(0) == 1);
        lemma_pow256_monotonic(0, 0);
    } else {
        let (m, e) = factorial_bound(n);
        lemma_factorial_bound(n);
        lemma_halve_until(m, e, 1);
        let bits = factorial_bits(n);
        // n! <= m * 2^e <= 1 * 2^bits
        assert(factorial(n) <= pow2(bits)) by (nonlinear_arith)
            requires
                factorial(n) <= m * pow2(e),
                m * pow2(e) <= halve_until(m, e, 1).0 * pow2(bits),
                halve_until(m, e, 1).0 <= 1,
        ;
        let bytes = (bits + 7) / 8;
        lemma_pow256_pow2(bytes);
        if 8 * bytes > bits {
            vstd::arithmetic::power2::lemma_pow2_strictly_increases(bits, 8 * bytes);
        }
        lemma_pow256_monotonic(bytes, encode_size(n));
    }
}

/// Byte length of the code of a permutation of `element_count` values: enough for every
/// code, as `element_count! <= 256^r` shows, rounded up from a bound on
/// `log2(element_count!)` and padded for long sequences. A length that does not fit in a
/// `usize` comes out as `usize::MAX`.
pub fn get_encode_size(element_count: u32) -> (r: usize)
    ensures
        r == if encode_size(element_count as nat) <= usize::MAX {
            encode_size(element_count as nat)
        } else {
            usize::MAX as nat
        },
        encode_size(element_count as nat) <= usize::MAX ==> factorial(element_count as nat)
            <= pow256(r as nat),
{
    proof {
        lemma_encode_size_bound(element_count as nat);
    }
    let size = byte_size(element_count);
    if size > usize::MAX as u64 {
        usize::MAX
    } else {
        size as usize
    }
}

/// `(m - 1) * 2^j <= m0 - 1` bounds how often a mantissa below `2^k` can be halved.
proof fn lemma_halvings_bound(m: nat, j: nat, m0: nat, floor: nat, k: nat)
    requires
        (m - 1) * pow2(j) <= m0 - 1,
        m0 <= pow2(k + floor),
        m >= pow2(floor) + 1,
    ensures
        j < k,
{
    lemma_pow2_pos(floor);
    lemma_pow2_pos(j);
    if j >= k {
        lemma_pow2_adds(floor, j);
        if j > k {
            vstd::arithmetic::power2::lemma_pow2_strictly_increases(floor + k, floor + j);
        }
        assert(pow2(floor) * pow2(j) <= (m - 1) * pow2(j)) by (nonlinear_arith)
            requires
                m - 1 >= pow2(floor),
                pow2(j) > 0,
        ;
    }
}

/// One halving step keeps `(m - 1) * 2^j <= m0 - 1`.
proof fn lemma_halving_step(m: nat, j: nat, m0: nat)
    requires
        m >= 2,
        (m - 1) * pow2(j) <= m0 - 1,
    ensures
        (((m + 1) / 2) as nat - 1) * pow2(j + 1) <= m0 - 1,
{
    lemma_pow2_unfold(j + 1);
    lemma_pow2_pos(j);
    let h = (m + 1) / 2;
    assert((h - 1) * (2 * pow2(j)) <= (m - 1) * pow2(j)) by (nonlinear_arith)
        requires
            2 * (h - 1) <= m - 1,
            pow2(j) > 0,
    ;
}

/// The byte length of a code, in 64 bits whatever the platform.
pub fn byte_size(element_count: u32) -> (r: u64)
    ensures
        r == encode_size(element_count as nat),
{
    if element_count == 0 {
        return 0;
    }
    let n = element_count as u64;
    let mut m: u128 = 1;
    let mut e: u64 = 0;
    let mut i: u64 = 2;
    proof {
        vstd::arithmetic::power2::lemma2_to64();
        vstd::arithmetic::power2::lemma2_to64_rest();
        lemma_pow2_adds(63, 32);
    }
    while i <= n
        invariant
            2 <= i <= n + 1,
            n == element_count,
            n <= 0xffff_ffff,
            (m as nat, e as nat) == factorial_bound((i - 1) as nat),
            1 <= m <= MANTISSA_MAX,
            e <= 33 * (i - 2),
            pow2(63) == 0x8000_0000_0000_0000,
            pow2(95) == 0x8000_0000_0000_0000_0000_0000,
        decreases n + 1 - i,
    {
        proof {
            assert(m * i < 0x8000_0000_0000_0000_0000_0000) by (nonlinear_arith)
                requires
                    m <= MANTISSA_MAX,
                    i <= 0xffff_ffff,
                    m >= 1,
            ;
            assert(m * i >= 1) by (nonlinear_arith)
                requires
                    m >= 1,
                    i >= 2,
            ;
        }
        let m0 = m * (i as u128);
        let ghost e0 = e;
        m = m0;
        let ghost mut j: nat = 0;
        proof {
            assert(factorial_bound(i as nat) == halve_until(m0 as nat, e as nat, MANTISSA_MAX as nat));
            vstd::arithmetic::power2::lemma2_to64();
        }
        while m > MANTISSA_MAX
            invariant
                halve_until(m as nat, e as nat, MANTISSA_MAX as nat) == halve_until(
                    m0 as nat,
                    e0 as nat,
                    MANTISSA_MAX as nat,
                ),
                1 <= m <= m0,
                m0 < 0x8000_0000_0000_0000_0000_0000,
                e == e0 + j,
                e0 <= 33 * (i - 2),
                i <= 0xffff_ffff,
                (m - 1) * pow2(j) <= m0 - 1,
                j <= 33,
                pow2(63) == 0x8000_0000_0000_0000,
                pow2(95) == 0x8000_0000_0000_0000_0000_0000,
            decreases m,
        {
            proof {
                vstd::arithmetic::power2::lemma2_to64();
                lemma_pow2_adds(62, 33);
                lemma_pow2_adds(62, 1);
                lemma_halvings_bound(m as nat, j, m0 as nat, 62, 33);
                lemma_halving_step(m as nat, j, m0 as nat);
            }
            m = (m + 1) / 2;
            e = e + 1;
            proof {
                j = j + 1;
            }
        }
        i = i + 1;
    }
    let ghost m0 = m;
    let ghost e0 = e;
    let ghost mut j: nat = 0;
    proof {
        vstd::arithmetic::power2::lemma2_to64();
    }
    while m > 1
        invariant
            halve_until(m as nat, e as nat, 1) == halve_until(m0 as nat, e0 as nat, 1),
            1 <= m <= m0,
            m0 <= MANTISSA_MAX,
            e == e0 + j,
            e0 <= 33 * 0xffff_ffff,
            (m - 1) * pow2(j) <= m0 - 1,
            j <= 63,
            pow2(63) == 0x8000_0000_0000_0000,
        decreases m,
    {
        proof {
            vstd::arithmetic::power2::lemma2_to64();
            lemma_halvings_bound(m as nat, j, m0 as nat, 0, 63);
            lemma_halving_step(m as nat, j, m0 as nat);
        }
        m = (m + 1) / 2;
        e = e + 1;
        proof {
            j = j + 1;
        }
    }
    let padding: u64 = if n < 4000 {
        0
    } else if n < 1_000_000 {
        2
    } else {
        32
    };
    (e + 7) / 8 + padding
}

} // verus!
