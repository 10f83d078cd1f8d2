//! Unbounded unsigned integers, held as little-endian bytes; the arithmetic is dashu's.
use vstd::prelude::*;
use vstd::slice::slice_to_vec;
use dashu::base::{BitTest, DivRem};
use dashu::integer::UBig;

verus! {

pub open spec fn pow256(e: nat) -> nat
    decreases e,
{
    if e == 0 {
        1
    } else {
        256 * pow256((e - 1) as nat)
    }
}

/// The value of a little-endian byte string.
pub open spec fn le_value(s: Seq<u8>) -> nat
    decreases s.len(),
{
    if s.len() == 0 {
        0
    } else {
        le_value(s.drop_last()) + s.last() as nat * pow256((s.len() - 1) as nat)
    }
}

/// Number of binary digits of `n`; zero for zero.
pub open spec fn bit_length(n: nat) -> nat
    decreases n,
{
    if n == 0 {
        0
    } else {
        1 + bit_length(n / 2)
    }
}

pub proof fn lemma_pow256_monotonic(a: nat, b: nat)
    requires
        a <= b,
    ensures
        1 <= pow256(a) <= pow256(b),
    decreases b,
{
    if b > a {
        lemma_pow256_monotonic(a, (b - 1) as nat);
    } else if a > 0 {
        lemma_pow256_monotonic((a - 1) as nat, (a - 1) as nat);
    }
}

/// Bytes past the first `len` of a value below `256^len` are zero, so cutting them keeps
/// the value.
proof fn lemma_le_value_take(s: Seq<u8>, len: nat)
    requires
        len <= s.len(),
        le_value(s) < pow256(len),
    ensures
        le_value(s.take(len as int)) == le_value(s),
    decreases s.len(),
{
    if s.len() > len {
        let top = s.last() as nat;
        let w = pow256((s.len() - 1) as nat);
        lemma_pow256_monotonic(len, (s.len() - 1) as nat);
        if top > 0 {
            assert(top * w >= w) by (nonlinear_arith)
                requires
                    top >= 1,
            ;
        }
        assert(top == 0);
        assert(top * w == 0) by (nonlinear_arith)
            requires
                top == 0,
        ;
        assert(le_value(s) == le_value(s.drop_last()));
        assert(s.drop_last().take(len as int) =~= s.take(len as int));
        lemma_le_value_take(s.drop_last(), len);
    } else {
        assert(s.take(len as int) =~= s);
    }
}

/// Padding with zero bytes keeps the value.
proof fn lemma_le_value_padded(s: Seq<u8>, len: nat)
    requires
        s.len() <= len,
    ensures
        le_value(Seq::new(len, |j: int| if j < s.len() { s[j] } else { 0u8 })) == le_value(s),
    decreases len,
{
    let p = Seq::new(len, |j: int| if j < s.len() { s[j] } else { 0u8 });
    if len > s.len() {
        lemma_le_value_padded(s, (len - 1) as nat);
        assert(p.drop_last() =~= Seq::new(
            (len - 1) as nat,
            |j: int| if j < s.len() { s[j] } else { 0u8 },
        ));
    } else {
        assert(p =~= s);
    }
}

/// An unsigned integer of any size.
pub struct BigNat {
    bytes: Vec<u8>,
}

impl View for BigNat {
    type V = nat;

    closed spec fn view(&self) -> nat {
        le_value(self.bytes@)
    }
}

impl BigNat {
    /// Relies on `UBig::from(u64)` and `UBig::to_le_bytes`: the bytes of the same value.
    #[verifier::external_body]
    pub(crate) fn from_u64(x: u64) -> (r: BigNat)
        ensures
            r@ == x,
    {
        BigNat { bytes: UBig::from(x).to_le_bytes().into_vec() }
    }

    /// Relies on `u64::try_from(UBig)`: it succeeds on any value that fits in 64 bits.
    #[verifier::external_body]
    pub(crate) fn to_u64(&self) -> (r: u64)
        requires
            self@ <= u64::MAX,
        ensures
            r == self@,
    {
        u64::try_from(UBig::from_le_bytes(&self.bytes)).unwrap()
    }

    /// Relies on `Mul for UBig`: the exact product.
    #[verifier::external_body]
    pub(crate) fn product(&self, other: &BigNat) -> (r: BigNat)
        ensures
            r@ == self@ * other@,
    {
        let p = UBig::from_le_bytes(&self.bytes) * UBig::from_le_bytes(&other.bytes);
        BigNat { bytes: p.to_le_bytes().into_vec() }
    }

    /// Relies on `Add for UBig`: the exact sum.
    #[verifier::external_body]
    pub(crate) fn sum(&self, other: &BigNat) -> (r: BigNat)
        ensures
            r@ == self@ + other@,
    {
        let p = UBig::from_le_bytes(&self.bytes) + UBig::from_le_bytes(&other.bytes);
        BigNat { bytes: p.to_le_bytes().into_vec() }
    }

    /// Relies on `DivRem for UBig`: quotient and remainder; it panics on a zero divisor.
    #[verifier::external_body]
    pub(crate) fn div_rem(&self, divisor: &BigNat) -> (r: (BigNat, BigNat))
        requires
            divisor@ > 0,
        ensures
            r.0@ == self@ / divisor@,
            r.1@ == self@ % divisor@,
    {
        let a = UBig::from_le_bytes(&self.bytes);
        let (q, m) = a.div_rem(UBig::from_le_bytes(&divisor.bytes));
        (BigNat { bytes: q.to_le_bytes().into_vec() }, BigNat { bytes: m.to_le_bytes().into_vec() })
    }

    /// Relies on `BitTest::bit_len for UBig`: the number of binary digits, zero for zero.
    #[verifier::external_body]
    pub(crate) fn bit_len(&self) -> (r: usize)
        ensures
            r == bit_length(self@),
    {
        UBig::from_le_bytes(&self.bytes).bit_len()
    }

    /// The number that `bytes` writes in little-endian order.
    pub fn from_le_bytes(bytes: &[u8]) -> (r: BigNat)
        ensures
            r@ == le_value(bytes@),
    {
        BigNat { bytes: slice_to_vec(bytes) }
    }

    /// The value as exactly `len` little-endian bytes, zero-padded.
    pub fn to_le_bytes_padded(&self, len: usize) -> (r: Vec<u8>)
        requires
            self@ < pow256(len as nat),
        ensures
            r@.len() == len,
            le_value(r@) == self@,
    {
        let n = self.bytes.len();
        let mut out: Vec<u8> = Vec::new();
        let mut i: usize = 0;
        while i < len
            invariant
                i <= len,
                n == self.bytes@.len(),
                out@ =~= Seq::new(i as nat, |j: int| if j < n { self.bytes@[j] } else { 0u8 }),
            decreases len - i,
        {
            if i < n {
                out.push(self.bytes[i]);
            } else {
                out.push(0);
            }
            i += 1;
        }
        proof {
            let s = self.bytes@;
            if len <= n {
                assert(out@ =~= s.take(len as int));
                lemma_le_value_take(s, len as nat);
            } else {
                lemma_le_value_padded(s, len as nat);
            }
        }
        out
    }
}

} // verus!
