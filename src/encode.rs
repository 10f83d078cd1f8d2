//! Encoding: the ranking tree that computes Lehmer digits, the machine-word accumulator
//! that batches the mixed-radix steps, and the ordered reduction of its chunks.
use vstd::prelude::*;
use vstd::arithmetic::power2::{lemma_pow2_pos, lemma_pow2_strictly_increases, lemma_pow2_unfold, pow2};
use crate::bignum::BigNat;
use crate::tree::{
    count_in, is_level, lemma_aligned_below, lemma_aligned_unique, lemma_block_node,
    lemma_count_bound, lemma_count_clear, lemma_count_set, lemma_count_split, lemma_level_block,
    lemma_level_unique, lemma_parent_bits, lemma_pow2_divides, lemma_trailing_zeros_level,
};
use vstd::bits::{low_bits_mask, lemma_u32_shl_is_mul, lemma_u64_low_bits_mask_is_mod, lemma_u64_shl_is_mul};
use vstd::std_specs::bits::axiom_u32_trailing_zeros;

verus! {

/// Ranking tree: for each value inserted, how many smaller values are still to come.
pub struct EncodeAS {
    tree: Vec<u32>,
    inserted: Ghost<Seq<bool>>,
    depth: Ghost<nat>,
}

impl EncodeAS {
    /// Number of leaves: the values `0..leaves()` can be inserted.
    pub closed spec fn leaves(&self) -> nat {
        self.tree@.len()
    }

    /// Which values have been inserted.
    pub closed spec fn inserted(&self) -> Seq<bool> {
        self.inserted@
    }

    /// Each node counts the inserted values in its left subtree.
    pub closed spec fn wf(&self) -> bool {
        &&& self.depth@ <= 32
        &&& self.tree@.len() == pow2(self.depth@)
        &&& self.inserted@.len() == self.tree@.len()
        &&& self.tree@[0] == 0
        &&& forall|k: int, h: nat|
            0 < k < self.tree@.len() && #[trigger] is_level(k, h) ==> self.tree@[k] as nat
                == count_in(self.inserted@, k - pow2(h), k)
    }

    /// An empty tree over the smallest power of two of leaves that holds `element_count`
    /// values.
    pub fn new(element_count: u32) -> (r: Self)
        requires
            element_count <= usize::MAX / 2 + 1,
        ensures
            r.wf(),
            r.leaves() >= element_count,
            r.leaves() <= u32::MAX + 1,
            r.leaves() == 1 || r.leaves() < 2 * element_count,
            r.inserted() == Seq::new(r.leaves(), |i: int| false),
    {
        let (len, depth) = leaf_count(element_count);
        proof {
            vstd::arithmetic::power2::lemma2_to64();
            if depth@ < 32 {
                lemma_pow2_strictly_increases(depth@, 32);
            }
        }
        let tree = vec![0u32; len];
        let r = EncodeAS {
            tree,
            inserted: Ghost(Seq::new(len as nat, |i: int| false)),
            depth: Ghost(depth@),
        };
        proof {
            assert forall|k: int, h: nat|
                0 < k < r.tree@.len() && #[trigger] is_level(k, h) implies r.tree@[k] as nat
                    == count_in(r.inserted@, k - pow2(h), k) by {
                lemma_level_block(k, h);
                lemma_count_clear(r.inserted@, k - pow2(h), k);
            }
        }
        r
    }

    /// The left child of an inner node: half a subtree below it.
    pub fn _left_child_id(node_id: u32) -> (r: u32)
        requires
            node_id != 0,
            node_id % 2 == 0,
        ensures
            forall|h: nat| #[trigger]
                is_level(node_id as int, h) ==> h >= 1 && is_level(r as int, (h - 1) as nat) && r
                    == node_id - pow2((h - 1) as nat),
    {
        let zeroes = node_id.trailing_zeros();
        proof {
            lemma_child_facts(node_id, zeroes);
        }
        node_id - (1 << (zeroes - 1))
    }

    /// The right child of an inner node: half a subtree above it.
    pub fn _right_child_id(node_id: u32) -> (r: u32)
        requires
            node_id != 0,
            node_id % 2 == 0,
        ensures
            forall|h: nat| #[trigger]
                is_level(node_id as int, h) ==> h >= 1 && is_level(r as int, (h - 1) as nat) && r
                    == node_id + pow2((h - 1) as nat),
    {
        let zeroes = node_id.trailing_zeros();
        proof {
            lemma_child_facts(node_id, zeroes);
        }
        node_id + (1 << (zeroes - 1))
    }

    /// The parent of a node: the node one level up whose subtree holds it. The root of a
    /// tree of `2^32` leaves has none.
    pub fn _parent_id(node_id: u32) -> (r: u32)
        requires
            node_id != 0,
            node_id != 0x8000_0000,
        ensures
            forall|h: nat| #[trigger]
                is_level(node_id as int, h) ==> is_level(r as int, h + 1) && (r == node_id + pow2(
                    h,
                ) || r + pow2(h) == node_id),
    {
        let zeroes = node_id.trailing_zeros();
        let ghost t = zeroes;
        proof {
            axiom_u32_trailing_zeros(node_id);
            lemma_trailing_zeros_level(node_id);
            lemma_parent_bits(node_id, t);
            vstd::arithmetic::power2::lemma2_to64();
            vstd::arithmetic::power2::lemma2_to64_rest();
            lemma_pow2_strictly_increases((t + 2) as nat, 64);
            lemma_pow2_strictly_increases((t + 1) as nat, 64);
            lemma_u64_shl_is_mul(1, (t + 2) as u64);
            lemma_u64_shl_is_mul(1, (t + 1) as u64);
            lemma_u64_shl_is_mul(1, t as u64);
            assert forall|h: nat| #[trigger] is_level(node_id as int, h) implies h == t by {
                lemma_level_unique(node_id as int, h, t as nat);
            }
        }
        let tmp = (node_id >> zeroes) & 3;
        if tmp == 1 {
            let r = node_id + (1 << zeroes);
            proof {
                let w = vstd::prelude::add(node_id as u64, 1u64 << t as u64);
                assert(w == r);
                lemma_u64_low_bits_mask_is_mod(w, (t + 2) as nat);
                assert(vstd::prelude::add(t as u64, 2u64) == (t + 2) as u64);
                assert(vstd::prelude::add(t as u64, 1u64) == (t + 1) as u64);
                assert(low_bits_mask((t + 2) as nat) == pow2((t + 2) as nat) - 1);
                assert(vstd::prelude::sub(1u64 << vstd::prelude::add(t as u64, 2u64), 1u64)
                    == low_bits_mask((t + 2) as nat));
                assert(w % (pow2((t + 2) as nat) as u64) == pow2((t + 1) as nat));
                assert(is_level(r as int, (t + 1) as nat));
            }
            r
        } else {
            let r = node_id & (node_id - 1);
            proof {
                let w = vstd::prelude::sub(node_id as u64, 1u64 << t as u64);
                assert(w == r);
                lemma_u64_low_bits_mask_is_mod(w, (t + 2) as nat);
                assert(vstd::prelude::add(t as u64, 2u64) == (t + 2) as u64);
                assert(vstd::prelude::add(t as u64, 1u64) == (t + 1) as u64);
                assert(low_bits_mask((t + 2) as nat) == pow2((t + 2) as nat) - 1);
                assert(vstd::prelude::sub(1u64 << vstd::prelude::add(t as u64, 2u64), 1u64)
                    == low_bits_mask((t + 2) as nat));
                assert(w % (pow2((t + 2) as nat) as u64) == pow2((t + 1) as nat));
                lemma_pow2_pos((t + 1) as nat);
                lemma_pow2_pos((t + 2) as nat);
                if r == 0 {
                    assert(w == 0);
                    assert(0u64 % (pow2((t + 2) as nat) as u64) == 0);
                }
                assert(is_level(r as int, (t + 1) as nat));
            }
            r
        }
    }

    /// Inserts `number` and returns its Lehmer digit: how many values below it have not
    /// been inserted yet.
    pub fn insert(&mut self, number: u32) -> (r: u32)
        requires
            old(self).wf(),
            number < old(self).leaves(),
            !old(self).inserted()[number as int],
        ensures
            final(self).wf(),
            final(self).leaves() == old(self).leaves(),
            final(self).inserted() == old(self).inserted().update(number as int, true),
            r == number - count_in(old(self).inserted(), 0, number as int),
    {
        let ghost s = self.inserted@;
        let ghost s2 = s.update(number as int, true);
        let ghost depth = self.depth@;
        let len = self.tree.len();
        if len == 1 {
            self.inserted = Ghost(s2);
            return number;
        }
        proof {
            vstd::arithmetic::power2::lemma2_to64();
            lemma_pow2_unfold(depth);
            lemma_pow2_pos((depth - 1) as nat);
            vstd::arithmetic::power2::lemma2_to64_rest();
            if depth == 32 {
            } else {
                lemma_pow2_strictly_increases(depth, 32);
            }
        }
        let mut result = number;
        let mut node = (len / 2) as u32;
        let mut jump = (len / 4) as u32;
        let ghost mut lo: int = 0;
        let ghost mut h: int = depth - 1;
        proof {
            if depth >= 2 {
                lemma_pow2_unfold((depth - 1) as nat);
            } else {
                vstd::arithmetic::power2::lemma2_to64();
            }
            assert forall|k: int, g: nat|
                0 < k < self.tree@.len() && #[trigger] is_level(k, g) implies self.tree@[k] as nat
                    == count_in(if g > h { s2 } else { s }, k - pow2(g), k) by {
                if g > h {
                    lemma_level_block(k, g);
                    if g > depth {
                        lemma_pow2_strictly_increases(depth, g);
                    }
                }
            }
        }
        loop
            invariant_except_break
                h >= 0,
                node == lo + pow2(h as nat),
                jump == pow2(h as nat) / 2,
            invariant
                self.depth@ == depth,
                1 <= depth <= 32,
                self.tree@.len() == len,
                len == pow2(depth),
                len <= 0x1_0000_0000,
                self.inserted@ == s,
                s.len() == len,
                number < len,
                !s[number as int],
                s2 == s.update(number as int, true),
                self.tree@[0] == 0,
                -1 <= h <= depth - 1,
                lo >= 0,
                lo % (pow2((h + 1) as nat) as int) == 0,
                lo + pow2((h + 1) as nat) <= len,
                lo <= number < lo + pow2((h + 1) as nat),
                result == number - count_in(s, 0, lo),
                forall|k: int, g: nat|
                    0 < k < len && #[trigger] is_level(k, g) ==> self.tree@[k] as nat == count_in(
                        if g > h {
                            s2
                        } else {
                            s
                        },
                        k - pow2(g),
                        k,
                    ),
            ensures
                h == -1,
            decreases h + 1,
        {
            let ghost hn = h as nat;
            let ghost node0 = node as int;
            let ghost tree0 = self.tree@;
            proof {
                lemma_block_node(lo, hn);
                lemma_count_bound(s, 0, lo);
                lemma_count_bound(s, lo, node0);
                lemma_count_split(s, 0, lo, node0);
                lemma_count_set(s, number as int, lo, node0);
                lemma_count_bound(s2, lo, node0);
                if hn < 31 {
                    lemma_pow2_strictly_increases(hn, 31);
                }
                vstd::arithmetic::power2::lemma2_to64_rest();
                if hn >= 1 {
                    lemma_pow2_unfold(hn);
                }
                assert(is_level(node0, hn));
            }
            let ghost new_lo: int;
            if number >= node {
                result -= self.tree[node as usize];
                node += jump;
                proof {
                    new_lo = node0;
                }
            } else {
                let count = self.tree[node as usize];
                self.tree.set(node as usize, count + 1);
                node -= jump;
                proof {
                    new_lo = lo;
                }
            }
            proof {
                assert forall|k: int, g: nat|
                    0 < k < len && #[trigger] is_level(k, g) implies self.tree@[k] as nat
                        == count_in(if g > h - 1 { s2 } else { s }, k - pow2(g), k) by {
                    if k == node0 {
                        lemma_level_unique(k, g, hn);
                    } else {
                        assert(self.tree@[k] == tree0[k]);
                        if g == hn {
                            lemma_level_block(k, g);
                            lemma_count_set(s, number as int, k - pow2(g), k);
                            if k - pow2(g) <= number < k {
                                lemma_aligned_unique(
                                    lo,
                                    k - pow2(g),
                                    pow2(hn + 1) as int,
                                    number as int,
                                );
                            }
                        }
                    }
                }
                lo = new_lo;
                h = h - 1;
            }
            if jump == 0 {
                proof {
                    if hn >= 1 {
                        lemma_pow2_pos((hn - 1) as nat);
                    }
                }
                break;
            }
            proof {
                if hn == 0 {
                    vstd::arithmetic::power2::lemma2_to64();
                }
            }
            jump /= 2;
            proof {
                lemma_pow2_unfold(hn);
                if hn >= 2 {
                    lemma_pow2_unfold((hn - 1) as nat);
                } else {
                    vstd::arithmetic::power2::lemma2_to64();
                }
            }
        }
        proof {
            vstd::arithmetic::power2::lemma2_to64();
        }
        self.inserted = Ghost(s2);
        result
    }
}


/// An even node sits at a level of one or more, and its children stay in 32 bits.
proof fn lemma_child_facts(node: u32, zeroes: u32)
    requires
        node != 0,
        node % 2 == 0,
        zeroes == vstd::std_specs::bits::u32_trailing_zeros(node),
    ensures
        1 <= zeroes < 32,
        (1u32 << (zeroes - 1) as u32) == pow2((zeroes - 1) as nat),
        node >= pow2(zeroes as nat),
        node + pow2((zeroes - 1) as nat) <= u32::MAX,
        forall|h: nat| #[trigger] is_level(node as int, h) ==> h == zeroes,
        is_level(node - pow2((zeroes - 1) as nat), (zeroes - 1) as nat),
        is_level(node + pow2((zeroes - 1) as nat), (zeroes - 1) as nat),
{
    lemma_trailing_zeros_level(node);
    let t = zeroes as nat;
    assert forall|h: nat| #[trigger] is_level(node as int, h) implies h == t by {
        lemma_level_unique(node as int, h, t);
    }
    vstd::arithmetic::power2::lemma2_to64();
    vstd::arithmetic::power2::lemma2_to64_rest();
    if t == 0 {
        assert(false);
    }
    lemma_level_block(node as int, t);
    let lo = node - pow2(t);
    lemma_block_node(lo, t);
    lemma_block_node(lo, (t - 1) as nat);
    lemma_block_node(lo + pow2(t), (t - 1) as nat);
    if t < 31 {
        lemma_pow2_strictly_increases((t - 1) as nat, 31);
    }
    lemma_u32_shl_is_mul(1, (zeroes - 1) as u32);
    lemma_pow2_divides(t + 1, 32);
    lemma_aligned_below(lo, pow2(t + 1) as int, pow2(32) as int);
}

/// The smallest power of two that is at least `element_count` (and at least one), with
/// its exponent.
pub fn leaf_count(element_count: u32) -> (r: (usize, Ghost<nat>))
    requires
        element_count <= usize::MAX / 2 + 1,
    ensures
        r.0 == pow2(r.1@),
        r.1@ <= 32,
        r.0 >= element_count,
        r.0 == 1 || r.0 < 2 * element_count,
{
    let n = element_count as u64;
    let mut len: u64 = 1;
    let ghost mut depth: nat = 0;
    proof {
        vstd::arithmetic::power2::lemma2_to64();
        vstd::arithmetic::power2::lemma2_to64_rest();
    }
    while len < n
        invariant
            n == element_count,
            len == pow2(depth),
            depth <= 32,
            len == 1 || len < 2 * n,
            n <= 0xffff_ffff,
            pow2(32) == 0x1_0000_0000,
        decreases 32 - depth,
    {
        proof {
            if depth >= 32 {
                if depth > 32 {
                    lemma_pow2_strictly_increases(32, depth);
                }
            }
            lemma_pow2_unfold(depth + 1);
        }
        len = len * 2;
        proof {
            depth = depth + 1;
        }
    }
    (len as usize, Ghost(depth))
}

/// The monoid of mixed-radix steps: `(add, mul)` stands for `x ↦ x * mul + add`, and
/// `combine(l, r)` runs `l` first, then `r`.
pub open spec fn combine(l: (nat, nat), r: (nat, nat)) -> (nat, nat) {
    (l.0 * r.1 + r.0, l.1 * r.1)
}

pub open spec fn identity() -> (nat, nat) {
    (0, 1)
}

/// The step of one digit `add` with radix `mul`: `x ↦ (x + add) * mul`.
pub open spec fn digit_step(add: nat, mul: nat) -> (nat, nat) {
    (add * mul, mul)
}

/// All the steps of `cs`, in order.
pub open spec fn fold_steps(cs: Seq<(nat, nat)>) -> (nat, nat)
    decreases cs.len(),
{
    if cs.len() == 0 {
        identity()
    } else {
        combine(fold_steps(cs.drop_last()), cs.last())
    }
}

/// `combine` is associative.
pub proof fn lemma_combine_associative(x: (nat, nat), y: (nat, nat), z: (nat, nat))
    ensures
        combine(combine(x, y), z) == combine(x, combine(y, z)),
{
    assert((x.0 * y.1 + y.0) * z.1 + z.0 == x.0 * (y.1 * z.1) + (y.0 * z.1 + z.0))
        by (nonlinear_arith);
    assert((x.1 * y.1) * z.1 == x.1 * (y.1 * z.1)) by (nonlinear_arith);
}

/// `(0, 1)` is the identity of `combine` on both sides.
pub proof fn lemma_combine_identity(x: (nat, nat))
    ensures
        combine(identity(), x) == x,
        combine(x, identity()) == x,
{
    assert(0 * x.1 + x.0 == x.0) by (nonlinear_arith);
    assert(1 * x.1 == x.1) by (nonlinear_arith);
    assert(x.0 * 1 + 0 == x.0) by (nonlinear_arith);
    assert(x.1 * 1 == x.1) by (nonlinear_arith);
}

/// Folding a concatenation combines the folds of its parts.
pub proof fn lemma_fold_concat(a: Seq<(nat, nat)>, b: Seq<(nat, nat)>)
    ensures
        fold_steps(a + b) == combine(fold_steps(a), fold_steps(b)),
    decreases b.len(),
{
    if b.len() == 0 {
        assert(a + b =~= a);
        lemma_combine_identity(fold_steps(a));
    } else {
        assert((a + b).drop_last() =~= a + b.drop_last());
        assert((a + b).last() == b.last());
        lemma_fold_concat(a, b.drop_last());
        lemma_combine_associative(fold_steps(a), fold_steps(b.drop_last()), b.last());
    }
}

/// A run of mixed-radix steps folded in machine words.
#[derive(Clone, Copy)]
pub struct Cache {
    pub add: u64,
    pub mul: u64,
}

impl View for Cache {
    type V = (nat, nat);

    open spec fn view(&self) -> (nat, nat) {
        (self.add as nat, self.mul as nat)
    }
}

impl Cache {
    /// No steps at all.
    pub fn identity() -> (r: Cache)
        ensures
            r@ == identity(),
    {
        Cache { add: 0, mul: 1 }
    }

    /// The step of one digit, starting a fresh run.
    pub fn new(add: u64, mul: u64) -> (r: Cache)
        requires
            add * mul <= u64::MAX,
        ensures
            r@ == digit_step(add as nat, mul as nat),
    {
        Cache { add: add * mul, mul }
    }

    /// Appends the step of one digit when the run still fits in 64 bits; otherwise leaves
    /// the run as it is and returns `None`.
    pub fn add(&mut self, add: u64, mul: u64) -> (r: Option<()>)
        ensures
            r is Some <==> (old(self).add + add <= u64::MAX && (old(self).add + add) * mul
                <= u64::MAX && old(self).mul * mul <= u64::MAX),
            r is Some ==> final(self)@ == combine(old(self)@, digit_step(add as nat, mul as nat)),
            r is None ==> *final(self) == *old(self),
    {
        let sum = match self.add.checked_add(add) {
            Some(v) => v,
            None => return None,
        };
        let scaled = match sum.checked_mul(mul) {
            Some(v) => v,
            None => return None,
        };
        let product = match self.mul.checked_mul(mul) {
            Some(v) => v,
            None => return None,
        };
        proof {
            let a = self.add as int;
            let b = add as int;
            let m = mul as int;
            assert((a + b) * m == a * m + b * m) by (nonlinear_arith);
        }
        self.mul = product;
        self.add = scaled;
        Some(())
    }
}

/// A run of mixed-radix steps folded in big integers.
pub struct BigCache {
    pub add: BigNat,
    pub mul: BigNat,
}

impl View for BigCache {
    type V = (nat, nat);

    open spec fn view(&self) -> (nat, nat) {
        (self.add@, self.mul@)
    }
}

impl BigCache {
    pub fn new(cache: &Cache) -> (r: BigCache)
        ensures
            r@ == cache@,
    {
        BigCache { add: BigNat::from_u64(cache.add), mul: BigNat::from_u64(cache.mul) }
    }

    pub fn identity() -> (r: BigCache)
        ensures
            r@ == identity(),
    {
        BigCache { add: BigNat::from_u64(0), mul: BigNat::from_u64(1) }
    }

    pub fn combine(left: BigCache, right: BigCache) -> (r: BigCache)
        ensures
            r@ == combine(left@, right@),
    {
        BigCache {
            add: left.add.product(&right.mul).sum(&right.add),
            mul: left.mul.product(&right.mul),
        }
    }
}

/// Ranges of more chunks than this are reduced in two parallel halves.
pub const PARALLEL_CHUNKS: usize = 8;

pub open spec fn steps_of(caches: Seq<Cache>) -> Seq<(nat, nat)> {
    caches.map_values(|c: Cache| c@)
}

/// All the steps of `caches[lo..hi]`, in order, as big integers: a tree-shaped fold that
/// keeps the intermediate numbers small and runs large halves in parallel.
pub fn reduce(caches: &Vec<Cache>, lo: usize, hi: usize) -> (r: BigCache)
    requires
        lo <= hi <= caches.len(),
    ensures
        r@ == fold_steps(steps_of(caches@.subrange(lo as int, hi as int))),
    decreases hi - lo,
{
    if hi - lo <= 1 {
        if hi == lo {
            return BigCache::identity();
        }
        let r = BigCache::new(&caches[lo]);
        proof {
            let one = steps_of(caches@.subrange(lo as int, hi as int));
            assert(one.drop_last() =~= Seq::<(nat, nat)>::empty());
            assert(fold_steps(one.drop_last()) == identity());
            assert(one.last() == caches@[lo as int]@);
            lemma_combine_identity(r@);
        }
        return r;
    }
    let mid = lo + (hi - lo) / 2;
    let ghost low_steps = steps_of(caches@.subrange(lo as int, mid as int));
    let ghost high_steps = steps_of(caches@.subrange(mid as int, hi as int));
    let (left, right) = if hi - lo > PARALLEL_CHUNKS {
        let low_task = move || -> (r: BigCache)
            requires
                lo <= mid <= caches.len(),
            ensures
                r@ == fold_steps(low_steps),
            {
                reduce(caches, lo, mid)
            };
        let high_task = move || -> (r: BigCache)
            requires
                mid <= hi <= caches.len(),
            ensures
                r@ == fold_steps(high_steps),
            {
                reduce(caches, mid, hi)
            };
        rayon::join(low_task, high_task)
    } else {
        (reduce(caches, lo, mid), reduce(caches, mid, hi))
    };
    proof {
        assert(steps_of(caches@.subrange(lo as int, hi as int)) =~= low_steps + high_steps);
        lemma_fold_concat(low_steps, high_steps);
    }
    BigCache::combine(left, right)
}

} // verus!
