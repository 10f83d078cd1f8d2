//! Lehmer codes of large permutations.
//!
//! A permutation of `0..N` is written as its Lehmer code, the integer
//! `((d[0] * (N - 1) + d[1]) * (N - 2) + ...) * 1 + d[N - 1]` where `d[i]` counts the later
//! entries smaller than entry `i`, serialised as little-endian bytes of a fixed length.
//! Every such code lies below `N!`, so it takes about `log2(N!) / 8` bytes.
use vstd::prelude::*;

pub mod bignum;
pub mod decode;
pub mod encode;
pub mod error;
pub mod fork_join;
pub mod laws;
pub mod lehmer;
pub mod radix;
pub mod size;
pub mod tree;

pub use decode::DecodeAS;
pub use encode::EncodeAS;
pub use error::Error;
pub use size::get_encode_size;

use bignum::{BigNat, le_value};
use decode::{recursive_divide, WorkItem};
use encode::{
    combine, digit_step, fold_steps, lemma_combine_associative, lemma_combine_identity, reduce,
    steps_of, Cache,
};
use lehmer::{
    count_below, first_error, is_permutation, lehmer_code, lehmer_digits, presence,
    validation_error,
};
use radix::{factorial, horner, radix_digits};
use size::{byte_size, encode_size, too_long};

verus! {

/// What `encode` returns for the sequence `p`.
pub open spec fn encode_result(p: Seq<u32>, r: Result<Vec<u8>, Error>) -> bool {
    if too_long(p.len()) {
        r == Err::<Vec<u8>, Error>(Error::SequenceToLong { element_count: p.len() as usize })
    } else {
        match validation_error(p) {
            Some(e) => r == Err::<Vec<u8>, Error>(e),
            None => match r {
                Ok(bytes) => bytes@.len() == encode_size(p.len()) && le_value(bytes@)
                    == lehmer_code(p),
                Err(_) => false,
            },
        }
    }
}

/// The digit of position `i` computed from the entries before it: `p[i]` less the earlier
/// entries below it.
pub open spec fn prefix_digit(p: Seq<u32>, i: int) -> nat {
    (p[i] - count_below(p.take(i), p[i] as int)) as nat
}

pub open spec fn prefix_digits(p: Seq<u32>, k: int) -> Seq<nat> {
    Seq::new(k as nat, |i: int| prefix_digit(p, i))
}

/// Encodes a permutation of `0..N` as its Lehmer code: `encode_size(N)` little-endian
/// bytes. A sequence that is not a permutation is refused with the error at its first
/// out-of-range or repeated entry.
pub fn encode(numbers: &[u32]) -> (r: Result<Vec<u8>, Error>)
    ensures
        encode_result(numbers@, r),
{
    let ghost p = numbers@;
    let n = numbers.len();
    if n == 0 {
        proof {
            assert(validation_error(p) is None);
            assert(lehmer_digits(p) =~= Seq::<nat>::empty());
        }
        return Ok(Vec::new());
    }
    if n > u32::MAX as usize || n > usize::MAX / 2 + 1 {
        return Err(Error::SequenceToLong { element_count: n });
    }
    let count = n as u32;
    let size = byte_size(count);
    if size > usize::MAX as u64 {
        return Err(Error::SequenceToLong { element_count: n });
    }
    assert(!too_long(n as nat));
    let mut encode_as = EncodeAS::new(count);
    let ghost leaves = encode_as.leaves();
    let mut validation: Vec<bool> = vec![false; n];
    let mut cache = Cache::identity();
    let mut caches: Vec<Cache> = Vec::new();
    let mut index: usize = 0;
    proof {
        assert(p.take(0) =~= Seq::<u32>::empty());
        assert(validation@ =~= presence(p.take(0), n as nat));
        assert(steps_of(caches@) =~= Seq::<(nat, nat)>::empty());
        lemma_combine_identity(encode::identity());
        assert(prefix_digits(p, 0) =~= Seq::<nat>::empty());
        assert(fold_steps(steps_of(caches@)) == encode::identity());
        assert(horner(prefix_digits(p, 0), n as nat) == 0);
        assert(combine(fold_steps(steps_of(caches@)), cache@).0 == 0);
        assert(encode_as.inserted() =~= presence(p.take(0), leaves));
    }
    while index + 1 < n
        invariant
            p == numbers@,
            n == p.len(),
            1 <= n <= u32::MAX,
            !too_long(n as nat),
            count == n,
            index + 1 <= n,
            leaves >= n,
            leaves <= u32::MAX + 1,
            first_error(p, index as int) is None,
            validation@ == presence(p.take(index as int), n as nat),
            encode_as.wf(),
            encode_as.leaves() == leaves,
            encode_as.inserted() == presence(p.take(index as int), leaves),
            combine(fold_steps(steps_of(caches@)), cache@).0 == horner(
                prefix_digits(p, index as int),
                n as nat,
            ) * (n - index),
        decreases n - index,
    {
        let number = numbers[index];
        proof {
            lemma_extend_first_error(p, index as int);
        }
        if number as usize >= n {
            proof {
                lehmer::lemma_first_error_stays(p, index + 1, n as int);
            }
            return Err(Error::ValidationOutOfRange);
        }
        if validation[number as usize] {
            proof {
                lehmer::lemma_first_error_stays(p, index + 1, n as int);
            }
            return Err(Error::ValidationDuplicateNumber);
        }
        let ghost before = p.take(index as int);
        let ghost x = combine(fold_steps(steps_of(caches@)), cache@);
        let ghost cache0 = cache@;
        proof {
            lehmer::lemma_first_error_none(p, index as int);
            lehmer::lemma_valid_prefix(p, index as int);
            lehmer::lemma_presence_count(before, leaves, number as int);
            assert(p.take(index + 1) =~= before.push(number));
            lehmer::lemma_presence_push(before, number, n as nat);
            lehmer::lemma_presence_push(before, number, leaves);
            lehmer::lemma_first_error_none(p, index + 1);
        }
        validation.set(number as usize, true);
        let digit = encode_as.insert(number);
        let add = digit as u64;
        let mul = (n - (index + 1)) as u64;
        proof {
            assert(add * mul <= u64::MAX) by (nonlinear_arith)
                requires
                    add < 0xffff_ffff,
                    mul < 0xffff_ffff,
            ;
            lemma_horner_step(p, index as int, n as nat, x.0);
            assert(combine(x, digit_step(add as nat, mul as nat)).0 == (x.0 + add) * mul)
                by (nonlinear_arith);
        }
        let ghost step = digit_step(add as nat, mul as nat);
        let pushed = cache.add(add, mul);
        if pushed.is_none() {
            proof {
                let old_steps = steps_of(caches@);
                assert(steps_of(caches@.push(cache)) =~= old_steps.push(cache@));
                assert(old_steps.push(cache@).drop_last() =~= old_steps);
            }
            caches.push(cache);
            cache = Cache::new(add, mul);
            proof {
                lemma_combine_identity(cache@);
            }
        } else {
            proof {
                lemma_combine_associative(fold_steps(steps_of(caches@)), cache0, step);
            }
        }
        proof {
            assert(combine(fold_steps(steps_of(caches@)), cache@) == combine(x, step));
        }
        index += 1;
    }
    let last = numbers[n - 1];
    proof {
        lemma_extend_first_error(p, index as int);
    }
    if last as usize >= n {
        return Err(Error::ValidationOutOfRange);
    }
    if validation[last as usize] {
        return Err(Error::ValidationDuplicateNumber);
    }
    let ghost x = combine(fold_steps(steps_of(caches@)), cache@);
    proof {
        lehmer::lemma_first_error_none(p, n as int);
        lehmer::lemma_validation_permutation(p);
        lemma_code_from_prefix(p);
        laws::lemma_code_below_factorial(p);
        size::lemma_encode_size_bound(n as nat);
        assert(steps_of(caches@.push(cache)) =~= steps_of(caches@).push(cache@));
        assert(steps_of(caches@).push(cache@).drop_last() =~= steps_of(caches@));
    }
    caches.push(cache);
    let total = reduce(&caches, 0, caches.len());
    proof {
        assert(fold_steps(steps_of(caches@)) == x);
        assert(caches@.subrange(0, caches@.len() as int) =~= caches@);
        assert(x.0 == horner(prefix_digits(p, n - 1), n as nat) * 1);
        let h = horner(prefix_digits(p, n - 1), n as nat);
        assert(h * 1 == h) by (nonlinear_arith);
        assert(x.0 == lehmer_code(p));
        assert(caches@.subrange(0, caches@.len() as int) =~= caches@);
        bignum::lemma_pow256_monotonic(0, 0);
    }
    Ok(total.add.to_le_bytes_padded(size as usize))
}

/// What `decode` does with `code`, into a buffer that held `before` and then holds `after`.
pub open spec fn decode_result(code: Seq<u8>, before: Seq<u32>, after: Seq<u32>, r: Result<
    (),
    Error,
>) -> bool {
    let n = before.len();
    if n == 0 {
        r is Ok && after == before
    } else if too_long(n) {
        r == Err::<(), Error>(Error::SequenceToLong { element_count: n as usize }) && after
            == before
    } else if le_value(code) < factorial(n) {
        r is Ok && after.len() == n && is_permutation(after) && lehmer_code(after) == le_value(
            code,
        )
    } else {
        r == Err::<(), Error>(Error::Decode) && after == before
    }
}

/// Decodes a Lehmer code into the permutation of `results.len()` values that it stands
/// for. Zero bytes beyond the code's own length are ignored; a code not below
/// `results.len()!` is refused, and `results` then stays as it was.
pub fn decode(encoded: &[u8], results: &mut Vec<u32>) -> (r: Result<(), Error>)
    ensures
        decode_result(encoded@, old(results)@, final(results)@, r),
{
    let n = results.len();
    if n == 0 {
        return Ok(());
    }
    if n > u32::MAX as usize || n > usize::MAX / 2 + 1 || byte_size(n as u32) > usize::MAX as u64 {
        return Err(Error::SequenceToLong { element_count: n });
    }
    let ghost c = le_value(encoded@);
    let work = WorkItem { dividend: BigNat::from_le_bytes(encoded), start_index: 2, len: n - 1 };
    let digits = match recursive_divide(work) {
        Some(d) => d,
        None => {
            proof {
                radix::lemma_factorial_rising(n as nat);
            }
            return Err(Error::Decode);
        },
    };
    proof {
        radix::lemma_factorial_rising(n as nat);
        radix::lemma_value_of_digits(c, 2, (n - 1) as nat);
    }
    let ghost e = radix_digits(c, 2, (n - 1) as nat);
    let mut decode_as = DecodeAS::new(n as u32);
    let ghost leaves = decode_as.leaves();
    let mut index: usize = 0;
    proof {
        assert(decode_as.selected() =~= presence(results@.take(0), leaves));
    }
    while index + 1 < n
        invariant
            1 <= n <= u32::MAX,
            results@.len() == n,
            index + 1 <= n,
            leaves >= n,
            leaves <= u32::MAX + 1,
            digits@.map_values(|x: u32| x as nat) == e,
            e.len() == n - 1,
            radix::radix_valid(e, 2),
            decode_as.wf(),
            decode_as.leaves() == leaves,
            decode_as.selected() == presence(results@.take(index as int), leaves),
            forall|i: int| 0 <= i < index ==> #[trigger] results@[i] < n,
            forall|i: int, j: int|
                0 <= i < j < index ==> #[trigger] results@[i] != #[trigger] results@[j],
            forall|i: int| 0 <= i < index ==> #[trigger] prefix_digit(results@, i) == e[n - 2 - i],
        decreases n - index,
    {
        let digit = digits[n - 2 - index];
        let ghost q = results@.take(index as int);
        proof {
            assert(e[n - 2 - index] == digit);
            assert(e[n - 2 - index] < 2 + (n - 2 - index));
            lemma_selection_room(q, leaves, n as nat);
        }
        let value = decode_as.remove(digit);
        proof {
            lemma_selected_below(q, leaves, n as nat, value as int, digit as int);
            lehmer::lemma_presence_count(q, leaves, value as int);
        }
        let ghost before = results@;
        results.set(index, value);
        proof {
            assert(results@.take(index as int) =~= q);
            assert(results@.take(index + 1) =~= q.push(value));
            lehmer::lemma_presence_push(q, value, leaves);
            assert(!q.contains(value)) by {
                assert(!presence(q, leaves)[value as int]);
            }
            assert forall|i: int, j: int|
                0 <= i < j < index + 1 implies #[trigger] results@[i] != #[trigger] results@[j] by {
                if j == index {
                    assert(q[i] == results@[i]);
                }
            }
            assert forall|i: int| 0 <= i < index + 1 implies #[trigger] prefix_digit(results@, i)
                == e[n - 2 - i] by {
                if i < index {
                    assert(results@.take(i) =~= before.take(i));
                    assert(prefix_digit(before, i) == e[n - 2 - i]);
                } else {
                    assert(results@.take(i) =~= q);
                }
            }
        }
        index += 1;
    }
    let ghost q = results@.take(index as int);
    proof {
        lemma_selection_room(q, leaves, n as nat);
    }
    let value = decode_as.remove(0);
    proof {
        lemma_selected_below(q, leaves, n as nat, value as int, 0);
        lehmer::lemma_presence_count(q, leaves, value as int);
    }
    let ghost before = results@;
    results.set(n - 1, value);
    proof {
        let p = results@;
        assert forall|i: int| 0 <= i < n - 1 implies #[trigger] prefix_digit(p, i) == e[n - 2
            - i] by {
            assert(p.take(i) =~= before.take(i));
            assert(prefix_digit(before, i) == e[n - 2 - i]);
        }
        assert(p.take(n - 1) =~= q);
        assert(!q.contains(value)) by {
            assert(!presence(q, leaves)[value as int]);
        }
        assert forall|i: int, j: int| 0 <= i < j < n implies #[trigger] p[i] != #[trigger] p[j] by {
            if j == n - 1 {
                assert(q[i] == p[i]);
            }
        }
        assert forall|i: int| 0 <= i < n implies #[trigger] p[i] < n by {}
        assert(is_permutation(p));
        lemma_decoded_code(p, e, c);
    }
    Ok(())
}

/// With `q` selected, the selection tree still has room below `n` for `n - q.len()` values.
proof fn lemma_selection_room(q: Seq<u32>, leaves: nat, n: nat)
    requires
        q.len() < n <= leaves <= u32::MAX + 1,
        forall|i: int| 0 <= i < q.len() ==> #[trigger] q[i] < n,
        forall|i: int, j: int| 0 <= i < j < q.len() ==> #[trigger] q[i] != #[trigger] q[j],
    ensures
        crate::tree::free_in(presence(q, leaves), 0, n as int) == n - q.len(),
        crate::tree::free_in(presence(q, leaves), 0, leaves as int) == leaves - q.len(),
{
    lehmer::lemma_presence_count(q, leaves, n as int);
    lehmer::lemma_presence_count(q, leaves, leaves as int);
    lehmer::lemma_count_below_all(q, n as int);
    lehmer::lemma_count_below_all(q, leaves as int);
}

/// A value selected with fewer free values before it than there are free values below
/// `n` lies below `n`.
proof fn lemma_selected_below(q: Seq<u32>, leaves: nat, n: nat, v: int, d: int)
    requires
        q.len() < n <= leaves <= u32::MAX + 1,
        0 <= v < leaves,
        !presence(q, leaves)[v],
        crate::tree::free_in(presence(q, leaves), 0, v) == d,
        d < crate::tree::free_in(presence(q, leaves), 0, n as int),
    ensures
        v < n,
{
    crate::tree::lemma_select_side(presence(q, leaves), v, n as int);
}

/// The permutation whose prefix digits are the reversed mixed-radix digits of `c` has code
/// `c`.
proof fn lemma_decoded_code(p: Seq<u32>, e: Seq<nat>, c: nat)
    requires
        is_permutation(p),
        1 <= p.len() <= u32::MAX,
        e.len() == p.len() - 1,
        c < radix::rising(2, e.len()),
        e == radix_digits(c, 2, e.len()),
        forall|i: int| 0 <= i < p.len() - 1 ==> #[trigger] prefix_digit(p, i) == e[p.len() - 2 - i],
    ensures
        lehmer_code(p) == c,
{
    let n = p.len();
    let d = lehmer_digits(p);
    assert forall|i: int| 0 <= i < n - 1 implies d.drop_last()[i] == prefix_digit(p, i) by {
        lehmer::lemma_digit_from_prefix(p, i);
    }
    assert forall|k: int| 0 <= k < e.len() implies d.drop_last().reverse()[k] == e[k] by {
        assert(prefix_digit(p, n - 2 - k) == e[n - 2 - (n - 2 - k)]);
    }
    assert(d.drop_last().reverse() =~= e);
    assert(d.last() == 0) by {
        assert(p.subrange(n as int, n as int) =~= Seq::<u32>::empty());
    }
    radix::lemma_horner_radix(d.drop_last(), n);
    radix::lemma_value_of_digits(c, 2, e.len());
    let h = horner(d.drop_last(), n);
    assert(horner(d, n) == h * 1 + d.last());
    assert(h * 1 == h) by (nonlinear_arith);
}

/// Validating one more entry of a valid prefix.
proof fn lemma_extend_first_error(p: Seq<u32>, k: int)
    requires
        0 <= k < p.len(),
        first_error(p, k) is None,
    ensures
        first_error(p, k + 1) == if p[k] >= p.len() {
            Some(Error::ValidationOutOfRange)
        } else if p.take(k).contains(p[k]) {
            Some(Error::ValidationDuplicateNumber)
        } else {
            None::<Error>
        },
{
}

/// One more digit in Horner's rule.
proof fn lemma_horner_step(p: Seq<u32>, k: int, n: nat, acc: nat)
    requires
        0 <= k < n,
        acc == horner(prefix_digits(p, k), n) * (n - k),
    ensures
        (acc + prefix_digit(p, k)) * (n - k - 1) == horner(prefix_digits(p, k + 1), n) * (n - k
            - 1),
{
    assert(prefix_digits(p, k + 1).drop_last() =~= prefix_digits(p, k));
}

/// For a permutation, the code is Horner's rule over the prefix digits of all but the last
/// position.
proof fn lemma_code_from_prefix(p: Seq<u32>)
    requires
        is_permutation(p),
        1 <= p.len() <= u32::MAX,
    ensures
        lehmer_code(p) == horner(prefix_digits(p, p.len() - 1), p.len()),
{
    let n = p.len();
    let d = lehmer_digits(p);
    assert forall|i: int| 0 <= i < n - 1 implies d.drop_last()[i] == prefix_digits(p, n - 1)[i] by {
        lehmer::lemma_digit_from_prefix(p, i);
    }
    assert(d.drop_last() =~= prefix_digits(p, n - 1));
    assert(horner(d, n) == horner(d.drop_last(), n) * 1 + d.last());
    assert(horner(d.drop_last(), n) * 1 == horner(d.drop_last(), n));
    assert(d.last() == 0) by {
        assert(p.subrange(n as int, n as int) =~= Seq::<u32>::empty());
    }
}

} // verus!
