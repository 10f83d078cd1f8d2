//! Decoding: recursive split-divide of the code into factorial-base digits, and the
//! selection tree that turns digits back into values.
use vstd::prelude::*;
use vstd::arithmetic::div_mod::{lemma_div_denominator, lemma_fundamental_div_mod};
use crate::bignum::{BigNat, bit_length};
use crate::encode::leaf_count;
use crate::tree::{
    count_in, free_in, is_level, lemma_aligned_unique, lemma_block_node, lemma_count_bound,
    lemma_count_clear, lemma_count_set, lemma_count_split, lemma_level_block, lemma_level_unique,
    lemma_select_exists, lemma_select_side, lemma_trailing_zeros_level,
};
use vstd::arithmetic::power2::{lemma_pow2_pos, lemma_pow2_strictly_increases, lemma_pow2_unfold, pow2};
use crate::radix::{
    lemma_digits_split, lemma_rising_positive, radix_digit, radix_digits, rising,
};

verus! {

/// Dividends of at most this many bits are divided in machine words.
pub const WORD_BITS: usize = 64;

/// Work items with more digits than this run their two halves in parallel.
pub const PARALLEL_THRESHOLD: usize = 1000;

/// Dividends of at least this many bits are split sixteen ways rather than four.
pub const WIDE_SPLIT_BITS: usize = 20000;

/// What a division of `c` by the radices `s, s + 1, ...` (`len` of them) yields: its digits
/// when `c` is below their product, and nothing otherwise.
pub open spec fn divided(c: nat, s: nat, len: nat, r: Option<Vec<u32>>) -> bool {
    match r {
        Some(v) => c < rising(s, len) && v@.map_values(|x: u32| x as nat) == radix_digits(
            c,
            s,
            len,
        ),
        None => c >= rising(s, len),
    }
}

/// The bit length that the partial factorial of a split should reach.
pub open spec fn split_width(bits: nat) -> nat {
    if bits >= WIDE_SPLIT_BITS {
        bits / 16
    } else {
        bits / 4
    }
}

/// A dividend, the first radix to divide it by, and how many digits it holds.
pub struct WorkItem {
    pub dividend: BigNat,
    pub start_index: u64,
    pub len: usize,
}

impl WorkItem {
    pub open spec fn wf(&self) -> bool {
        &&& self.start_index >= 1
        &&& self.start_index + self.len <= u32::MAX + 1
    }
}

/// A number is below a positive divisor exactly when their quotient is zero.
pub proof fn lemma_below_iff_quotient_zero(c: nat, d: nat)
    requires
        d > 0,
    ensures
        (c / d == 0) == (c < d),
{
    assert((c / d == 0) == (c < d)) by (nonlinear_arith)
        requires
            d > 0,
    ;
}

proof fn lemma_rising_step(c: nat, s: nat, k: nat)
    requires
        s >= 1,
    ensures
        rising(s, k + 1) == rising(s, k) * (s + k),
        c / rising(s, k + 1) == (c / rising(s, k)) / (s + k),
{
    lemma_rising_positive(s, k);
    lemma_div_denominator(c as int, rising(s, k) as int, (s + k) as int);
}

/// The last step: successive division of a machine-word dividend.
pub fn divide(dividend: u64, start_index: u64, len: usize) -> (r: Option<Vec<u32>>)
    requires
        start_index >= 1,
        start_index + len <= u32::MAX + 1,
    ensures
        divided(dividend as nat, start_index as nat, len as nat, r),
{
    let mut rest = dividend;
    let mut out: Vec<u32> = Vec::new();
    let mut k: usize = 0;
    assert(rising(start_index as nat, 0) == 1);
    while k < len
        invariant
            k <= len,
            start_index >= 1,
            start_index + len <= u32::MAX + 1,
            rest as nat == (dividend as nat) / rising(start_index as nat, k as nat),
            out@.len() == k,
            forall|j: int|
                0 <= j < k ==> out@[j] as nat == #[trigger] radix_digit(
                    dividend as nat,
                    start_index as nat,
                    j as nat,
                ),
        decreases len - k,
    {
        let divisor = start_index + k as u64;
        proof {
            lemma_rising_step(dividend as nat, start_index as nat, k as nat);
        }
        out.push((rest % divisor) as u32);
        rest = rest / divisor;
        k += 1;
    }
    proof {
        lemma_rising_positive(start_index as nat, len as nat);
        lemma_below_iff_quotient_zero(dividend as nat, rising(start_index as nat, len as nat));
        assert(out@.map_values(|x: u32| x as nat) =~= radix_digits(
            dividend as nat,
            start_index as nat,
            len as nat,
        ));
    }
    if rest == 0 {
        Some(out)
    } else {
        None
    }
}

/// Splits a work item by the product of its first radices, enough of them for that product
/// to reach the split width (but leaving at least one radix to the right).
pub fn split(work: WorkItem) -> (r: (WorkItem, WorkItem))
    requires
        work.wf(),
        work.len >= 2,
        bit_length(work.dividend@) > WORD_BITS,
    ensures
        r.0.wf(),
        r.1.wf(),
        1 <= r.0.len < work.len,
        r.0.len + r.1.len == work.len,
        r.0.start_index == work.start_index,
        r.1.start_index == work.start_index + r.0.len,
        rising(work.start_index as nat, r.0.len as nat) > 0,
        r.0.dividend@ == work.dividend@ % rising(work.start_index as nat, r.0.len as nat),
        r.1.dividend@ == work.dividend@ / rising(work.start_index as nat, r.0.len as nat),
        r.0.len + 1 == work.len || bit_length(rising(work.start_index as nat, r.0.len as nat))
            >= split_width(bit_length(work.dividend@)),
        forall|j: nat|
            1 <= j < r.0.len ==> bit_length(#[trigger] rising(work.start_index as nat, j))
                < split_width(bit_length(work.dividend@)),
{
    let bits = work.dividend.bit_len();
    let width = if bits >= WIDE_SPLIT_BITS {
        bits / 16
    } else {
        bits / 4
    };
    let start = work.start_index;
    let mut factor = BigNat::from_u64(start);
    let mut k: usize = 1;
    proof {
        assert(rising(start as nat, 0) == 1);
        assert(rising(start as nat, 1) == rising(start as nat, 0) * start);
    }
    while k + 1 < work.len && factor.bit_len() < width
        invariant
            1 <= k < work.len,
            work.wf(),
            start == work.start_index,
            width == split_width(bits as nat),
            factor@ == rising(start as nat, k as nat),
            forall|j: nat|
                1 <= j < k ==> bit_length(#[trigger] rising(start as nat, j)) < width,
        decreases work.len - k,
    {
        proof {
            lemma_rising_step(0, start as nat, k as nat);
        }
        factor = factor.product(&BigNat::from_u64(start + k as u64));
        k += 1;
    }
    proof {
        lemma_rising_positive(start as nat, k as nat);
    }
    let (quotient, remainder) = work.dividend.div_rem(&factor);
    (
        WorkItem { dividend: remainder, start_index: start, len: k },
        WorkItem { dividend: quotient, start_index: start + k as u64, len: work.len - k },
    )
}

/// A value of more than 64 bits is at least `2^64`.
proof fn lemma_wide_value(c: nat)
    requires
        bit_length(c) > 64,
    ensures
        c >= 0x1_0000_0000_0000_0000,
{
    lemma_bit_length_bound(c, 64);
    vstd::arithmetic::power2::lemma2_to64();
}

/// `c < 2^b` exactly when `c` has at most `b` binary digits.
pub proof fn lemma_bit_length_bound(c: nat, b: nat)
    ensures
        bit_length(c) <= b <==> c < vstd::arithmetic::power2::pow2(b),
    decreases b,
{
    if b == 0 {
        vstd::arithmetic::power2::lemma2_to64();
    } else {
        lemma_bit_length_bound(c / 2, (b - 1) as nat);
        vstd::arithmetic::power2::lemma_pow2_unfold(b);
    }
}

/// Successive remainders of the work item's dividend by its radices, dividing the work
/// recursively so that each big-integer division stays moderate.
pub fn recursive_divide(work: WorkItem) -> (r: Option<Vec<u32>>)
    requires
        work.wf(),
    ensures
        divided(work.dividend@, work.start_index as nat, work.len as nat, r),
    decreases work.len,
{
    let bits = work.dividend.bit_len();
    if bits <= WORD_BITS {
        proof {
            lemma_bit_length_bound(work.dividend@, 64);
            vstd::arithmetic::power2::lemma2_to64();
        }
        return divide(work.dividend.to_u64(), work.start_index, work.len);
    }
    if work.len <= 1 {
        proof {
            lemma_wide_value(work.dividend@);
            assert(rising(work.start_index as nat, 0) == 1);
            assert(rising(work.start_index as nat, 1) == rising(work.start_index as nat, 0)
                * work.start_index);
        }
        return None;
    }
    let ghost c = work.dividend@;
    let ghost s = work.start_index as nat;
    let ghost len = work.len as nat;
    let total = work.len;
    let (left, right) = split(work);
    let ghost k = left.len as nat;
    let ghost lc = left.dividend@;
    let ghost rc = right.dividend@;
    let ghost rs = right.start_index as nat;
    let ghost rl = right.len as nat;
    let (a, b) = if total > PARALLEL_THRESHOLD {
        let low_task = move || -> (r: Option<Vec<u32>>)
            requires
                left.wf(),
                left.len == k,
                left.dividend@ == lc,
                left.start_index == s,
            ensures
                divided(lc, s, k, r),
            {
                recursive_divide(left)
            };
        let high_task = move || -> (r: Option<Vec<u32>>)
            requires
                right.wf(),
                right.len == rl,
                right.dividend@ == rc,
                right.start_index == rs,
            ensures
                divided(rc, rs, rl, r),
            {
                recursive_divide(right)
            };
        rayon::join(low_task, high_task)
    } else {
        let b = recursive_divide(right);
        let a = recursive_divide(left);
        (a, b)
    };
    proof {
        lemma_digits_split(c, s, k, len);
        lemma_rising_positive(s, k);
        lemma_rising_positive(rs, rl);
        lemma_rising_positive(s, len);
        vstd::arithmetic::div_mod::lemma_mod_pos_bound(c as int, rising(s, k) as int);
        // c is below all the radices exactly when its quotient is below those on the right.
        lemma_below_iff_quotient_zero(c, rising(s, len));
        lemma_below_iff_quotient_zero(rc, rising(rs, rl));
    }
    match (a, b) {
        (Some(mut low), Some(high)) => {
            let ghost low0 = low@;
            let ghost high0 = high@;
            let mut high = high;
            low.append(&mut high);
            proof {
                assert(low@.map_values(|x: u32| x as nat) =~= low0.map_values(|x: u32| x as nat)
                    + high0.map_values(|x: u32| x as nat));
            }
            Some(low)
        },
        _ => None,
    }
}

/// Selection tree: hands out the `d`-th smallest value not yet selected.
pub struct DecodeAS {
    tree: Vec<u32>,
    selected: Ghost<Seq<bool>>,
    depth: Ghost<nat>,
}

impl DecodeAS {
    /// Number of leaves: the values `0..leaves()` can be selected.
    pub closed spec fn leaves(&self) -> nat {
        self.tree@.len()
    }

    /// Which values have been selected.
    pub closed spec fn selected(&self) -> Seq<bool> {
        self.selected@
    }

    /// Each node counts the values of its left subtree not yet selected.
    pub closed spec fn wf(&self) -> bool {
        &&& self.depth@ <= 32
        &&& self.tree@.len() == pow2(self.depth@)
        &&& self.selected@.len() == self.tree@.len()
        &&& forall|k: int, h: nat|
            0 < k < self.tree@.len() && #[trigger] is_level(k, h) ==> self.tree@[k] as int
                == pow2(h) - count_in(self.selected@, k - pow2(h), k)
    }

    /// A tree with nothing selected, over the smallest power of two of leaves that holds
    /// `element_count` values.
    pub fn new(element_count: u32) -> (r: Self)
        requires
            element_count <= usize::MAX / 2 + 1,
        ensures
            r.wf(),
            r.leaves() >= element_count,
            r.leaves() <= u32::MAX + 1,
            r.leaves() == 1 || r.leaves() < 2 * element_count,
            r.selected() == Seq::new(r.leaves(), |i: int| false),
    {
        let (len, depth) = leaf_count(element_count);
        let ghost none = Seq::new(len as nat, |i: int| false);
        proof {
            vstd::arithmetic::power2::lemma2_to64();
            vstd::arithmetic::power2::lemma2_to64_rest();
            if depth@ < 32 {
                lemma_pow2_strictly_increases(depth@, 32);
            }
        }
        let mut tree: Vec<u32> = Vec::new();
        let mut i: usize = 0;
        while i < len
            invariant
                i <= len,
                len <= 0x1_0000_0000,
                tree@.len() == i,
                forall|k: int, h: nat|
                    0 < k < i && #[trigger] is_level(k, h) ==> tree@[k] as int == pow2(h),
            decreases len - i,
        {
            if i == 0 {
                tree.push(1);
            } else {
                let height = (i as u32).trailing_zeros();
                proof {
                    lemma_trailing_zeros_level(i as u32);
                    assert forall|h: nat| #[trigger] is_level(i as int, h) implies h == height by {
                        lemma_level_unique(i as int, h, height as nat);
                    }
                }
                tree.push(1u32 << height);
            }
            i += 1;
        }
        proof {
            assert forall|k: int, h: nat|
                0 < k < tree@.len() && #[trigger] is_level(k, h) implies tree@[k] as int == pow2(h)
                    - count_in(none, k - pow2(h), k) by {
                lemma_level_block(k, h);
                lemma_count_clear(none, k - pow2(h), k);
            }
        }
        DecodeAS { tree, selected: Ghost(none), depth }
    }

    /// Selects and returns the value with exactly `number` unselected values below it.
    pub fn remove(&mut self, number: u32) -> (r: u32)
        requires
            old(self).wf(),
            number < free_in(old(self).selected(), 0, old(self).leaves() as int),
        ensures
            final(self).wf(),
            final(self).leaves() == old(self).leaves(),
            r < old(self).leaves(),
            !old(self).selected()[r as int],
            free_in(old(self).selected(), 0, r as int) == number,
            final(self).selected() == old(self).selected().update(r as int, true),
    {
        let ghost s = self.selected@;
        let ghost depth = self.depth@;
        proof {
            lemma_select_exists(s, number as int, s.len() as int);
        }
        let ghost t = choose|t: int| 0 <= t < s.len() && !s[t] && #[trigger] free_in(s, 0, t)
            == number;
        let ghost s2 = s.update(t, true);
        let len = self.tree.len();
        if len == 1 {
            self.selected = Ghost(s2);
            return 0;
        }
        proof {
            vstd::arithmetic::power2::lemma2_to64();
            lemma_pow2_unfold(depth);
            lemma_pow2_pos((depth - 1) as nat);
            vstd::arithmetic::power2::lemma2_to64_rest();
            if depth < 32 {
                lemma_pow2_strictly_increases(depth, 32);
            }
        }
        let mut left_count: u32 = 0;
        let mut node_id = (len / 2) as u32;
        let mut jump = (len / 4) as u32;
        let ghost mut lo: int = 0;
        let ghost mut h: int = depth - 1;
        proof {
            if depth >= 2 {
                lemma_pow2_unfold((depth - 1) as nat);
            }
            assert forall|k: int, g: nat|
                0 < k < self.tree@.len() && #[trigger] is_level(k, g) implies self.tree@[k] as int
                    == pow2(g) - count_in(if g > h { s2 } else { s }, k - pow2(g), k) by {
                if g > h {
                    lemma_level_block(k, g);
                    if g > depth {
                        lemma_pow2_strictly_increases(depth, g);
                    }
                }
            }
        }
        loop
            invariant_except_break
                h >= 0,
                node_id == lo + pow2(h as nat),
                jump == pow2(h as nat) / 2,
            invariant
                self.depth@ == depth,
                1 <= depth <= 32,
                self.tree@.len() == len,
                len == pow2(depth),
                len <= 0x1_0000_0000,
                self.selected@ == s,
                s.len() == len,
                0 <= t < len,
                !s[t],
                free_in(s, 0, t) == number,
                s2 == s.update(t, true),
                -1 <= h <= depth - 1,
                lo >= 0,
                lo % (pow2((h + 1) as nat) as int) == 0,
                lo + pow2((h + 1) as nat) <= len,
                lo <= t < lo + pow2((h + 1) as nat),
                left_count == free_in(s, 0, lo),
                forall|k: int, g: nat|
                    0 < k < len && #[trigger] is_level(k, g) ==> self.tree@[k] as int == pow2(g)
                        - count_in(
                        if g > h {
                            s2
                        } else {
                            s
                        },
                        k - pow2(g),
                        k,
                    ),
            ensures
                h == -1,
                node_id == t,
            decreases h + 1,
        {
            let ghost hn = h as nat;
            let ghost node0 = node_id as int;
            let ghost tree0 = self.tree@;
            proof {
                lemma_block_node(lo, hn);
                lemma_count_bound(s, 0, lo);
                lemma_count_bound(s, lo, node0);
                lemma_count_split(s, 0, lo, node0);
                lemma_count_set(s, t, lo, node0);
                lemma_count_bound(s2, lo, node0);
                lemma_select_side(s, t, node0);
                if hn < 31 {
                    lemma_pow2_strictly_increases(hn, 31);
                }
                if hn >= 1 {
                    lemma_pow2_unfold(hn);
                }
                assert(is_level(node0, hn));
            }
            let node = self.tree[node_id as usize];
            let went_right = number >= node + left_count;
            let ghost new_lo: int;
            if went_right {
                left_count += node;
                node_id += jump;
                proof {
                    new_lo = node0;
                }
            } else {
                self.tree.set(node_id as usize, node - 1);
                node_id -= jump;
                proof {
                    new_lo = lo;
                }
            }
            proof {
                assert forall|k: int, g: nat|
                    0 < k < len && #[trigger] is_level(k, g) implies self.tree@[k] as int == pow2(g)
                        - count_in(if g > h - 1 { s2 } else { s }, k - pow2(g), k) by {
                    if k == node0 {
                        lemma_level_unique(k, g, hn);
                    } else {
                        assert(self.tree@[k] == tree0[k]);
                        if g == hn {
                            lemma_level_block(k, g);
                            lemma_count_set(s, t, k - pow2(g), k);
                            if k - pow2(g) <= t < k {
                                lemma_aligned_unique(lo, k - pow2(g), pow2(hn + 1) as int, t);
                            }
                        }
                    }
                }
                lo = new_lo;
                h = h - 1;
            }
            if jump == 0 {
                proof {
                    if hn >= 1 {
                        lemma_pow2_pos((hn - 1) as nat);
                    }
                    vstd::arithmetic::power2::lemma2_to64();
                }
                if !went_right {
                    node_id -= 1;
                }
                break;
            }
            proof {
                if hn == 0 {
                    vstd::arithmetic::power2::lemma2_to64();
                }
            }
            jump /= 2;
            proof {
                lemma_pow2_unfold(hn);
                if hn >= 2 {
                    lemma_pow2_unfold((hn - 1) as nat);
                } else {
                    vstd::arithmetic::power2::lemma2_to64();
                }
            }
        }
        self.selected = Ghost(s2);
        node_id
    }
}


} // verus!
