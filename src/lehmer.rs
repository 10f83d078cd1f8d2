//! Permutations, their Lehmer digits and codes, and input validation.
use vstd::prelude::*;
use crate::error::Error;
use crate::radix::horner;
use crate::tree::{count_in, lemma_count_clear, lemma_count_full, lemma_count_set};

verus! {

/// Number of entries of `s` below `x`.
pub open spec fn count_below(s: Seq<u32>, x: int) -> nat
    decreases s.len(),
{
    if s.len() == 0 {
        0
    } else {
        count_below(s.drop_last(), x) + if s.last() < x {
            1nat
        } else {
            0nat
        }
    }
}

/// Lehmer digit of position `i`: how many later entries are smaller than `p[i]`.
pub open spec fn lehmer_digit(p: Seq<u32>, i: int) -> nat {
    count_below(p.subrange(i + 1, p.len() as int), p[i] as int)
}

pub open spec fn lehmer_digits(p: Seq<u32>) -> Seq<nat> {
    Seq::new(p.len(), |i: int| lehmer_digit(p, i))
}

/// The Lehmer code of `p`: its digits read in the factorial number system,
/// `((d[0] * (N - 1) + d[1]) * (N - 2) + d[2]) * ... * 1 + d[N - 1]`.
pub open spec fn lehmer_code(p: Seq<u32>) -> nat {
    horner(lehmer_digits(p), p.len())
}

/// `p` holds each of `0..p.len()` exactly once.
pub open spec fn is_permutation(p: Seq<u32>) -> bool {
    &&& forall|i: int| 0 <= i < p.len() ==> #[trigger] p[i] < p.len()
    &&& forall|i: int, j: int| 0 <= i < j < p.len() ==> #[trigger] p[i] != #[trigger] p[j]
}

/// The first error that validating the first `k` entries of `p`, in order, finds.
pub open spec fn first_error(p: Seq<u32>, k: int) -> Option<Error>
    decreases k,
{
    if k <= 0 {
        None
    } else {
        match first_error(p, k - 1) {
            Some(e) => Some(e),
            None => if p[k - 1] >= p.len() {
                Some(Error::ValidationOutOfRange)
            } else if p.take(k - 1).contains(p[k - 1]) {
                Some(Error::ValidationDuplicateNumber)
            } else {
                None
            },
        }
    }
}

/// The error that validating `p` reports: the one at its first out-of-range or repeated
/// entry.
pub open spec fn validation_error(p: Seq<u32>) -> Option<Error> {
    first_error(p, p.len() as int)
}

/// Which values of `0..len` occur in `q`.
pub open spec fn presence(q: Seq<u32>, len: nat) -> Seq<bool> {
    Seq::new(len, |v: int| q.contains(v as u32))
}

/// Entry `i` is neither out of range nor a repeat of an earlier one.
pub open spec fn valid_at(p: Seq<u32>, i: int) -> bool {
    p[i] < p.len() && !p.take(i).contains(p[i])
}

pub proof fn lemma_first_error_none(p: Seq<u32>, k: int)
    requires
        0 <= k <= p.len(),
    ensures
        first_error(p, k) is None <==> forall|i: int| 0 <= i < k ==> #[trigger] valid_at(p, i),
    decreases k,
{
    if k > 0 {
        lemma_first_error_none(p, k - 1);
        if first_error(p, k) is None {
            assert forall|i: int| 0 <= i < k implies #[trigger] valid_at(p, i) by {
                if i < k - 1 {
                    assert(valid_at(p, i));
                }
            }
        } else if forall|i: int| 0 <= i < k ==> #[trigger] valid_at(p, i) {
            assert(valid_at(p, k - 1));
            assert forall|i: int| 0 <= i < k - 1 implies #[trigger] valid_at(p, i) by {
                assert(valid_at(p, i));
            }
        }
    }
}

/// Once an error is found, it stays the first one.
pub proof fn lemma_first_error_stays(p: Seq<u32>, k: int, m: int)
    requires
        0 <= k <= m,
        first_error(p, k) is Some,
    ensures
        first_error(p, m) == first_error(p, k),
    decreases m - k,
{
    if m > k {
        lemma_first_error_stays(p, k, m - 1);
    }
}

/// Entries that are all valid form a permutation, and the other way round.
pub proof fn lemma_valid_permutation(p: Seq<u32>)
    ensures
        (forall|i: int| 0 <= i < p.len() ==> #[trigger] valid_at(p, i)) <==> is_permutation(p),
{
    if forall|i: int| 0 <= i < p.len() ==> #[trigger] valid_at(p, i) {
        assert forall|i: int, j: int| 0 <= i < j < p.len() implies #[trigger] p[i] != #[trigger] p[j] by {
            assert(valid_at(p, j));
            assert(p.take(j)[i] == p[i]);
        }
        assert forall|i: int| 0 <= i < p.len() implies #[trigger] p[i] < p.len() by {
            assert(valid_at(p, i));
        }
    }
    if is_permutation(p) {
        assert forall|i: int| 0 <= i < p.len() implies #[trigger] valid_at(p, i) by {
            if p.take(i).contains(p[i]) {
                let j = choose|j: int| 0 <= j < p.take(i).len() && p.take(i)[j] == p[i];
                assert(p[j] == p[i]);
            }
        }
    }
}

/// `p` is a permutation exactly when validating it finds no error.
pub proof fn lemma_validation_permutation(p: Seq<u32>)
    ensures
        validation_error(p) is None <==> is_permutation(p),
{
    lemma_first_error_none(p, p.len() as int);
    lemma_valid_permutation(p);
}

/// Counting below `x` splits over a concatenation.
pub proof fn lemma_count_below_concat(a: Seq<u32>, b: Seq<u32>, x: int)
    ensures
        count_below(a + b, x) == count_below(a, x) + count_below(b, x),
    decreases b.len(),
{
    if b.len() == 0 {
        assert(a + b =~= a);
    } else {
        assert((a + b).drop_last() =~= a + b.drop_last());
        lemma_count_below_concat(a, b.drop_last(), x);
    }
}

pub proof fn lemma_count_below_bound(s: Seq<u32>, x: int)
    ensures
        count_below(s, x) <= s.len(),
    decreases s.len(),
{
    if s.len() > 0 {
        lemma_count_below_bound(s.drop_last(), x);
    }
}

/// The values of a repetition-free `q` below `x` are as many as the entries of its
/// presence map below `x`.
pub proof fn lemma_presence_count(q: Seq<u32>, len: nat, x: int)
    requires
        0 <= x <= len,
        len <= u32::MAX + 1,
        forall|i: int| 0 <= i < q.len() ==> #[trigger] q[i] < len,
        forall|i: int, j: int| 0 <= i < j < q.len() ==> #[trigger] q[i] != #[trigger] q[j],
    ensures
        count_in(presence(q, len), 0, x) == count_below(q, x),
    decreases q.len(),
{
    if q.len() == 0 {
        lemma_count_clear(presence(q, len), 0, x);
    } else {
        let r = q.drop_last();
        let v = q.last();
        lemma_presence_count(r, len, x);
        assert(!r.contains(v)) by {
            if r.contains(v) {
                let j = choose|j: int| 0 <= j < r.len() && r[j] == v;
                assert(q[j] == q[q.len() - 1]);
            }
        }
        assert(presence(q, len) =~= presence(r, len).update(v as int, true)) by {
            assert forall|w: int| 0 <= w < len implies presence(q, len)[w] == presence(
                r,
                len,
            ).update(v as int, true)[w] by {
                assert(q =~= r.push(v));
                if w != v as int {
                    if q.contains(w as u32) {
                        let j = choose|j: int| 0 <= j < q.len() && q[j] == w as u32;
                        assert(j < r.len());
                        assert(r[j] == q[j]);
                    }
                }
            }
        }
        lemma_count_set(presence(r, len), v as int, 0, x);
    }
}

/// In a permutation, exactly `x` entries lie below `x`.
pub proof fn lemma_permutation_count(p: Seq<u32>, x: int)
    requires
        is_permutation(p),
        p.len() <= u32::MAX,
        0 <= x <= p.len(),
    ensures
        count_below(p, x) == x,
{
    let n = p.len();
    lemma_presence_count(p, n, x);
    let b = presence(p, n);
    assert forall|v: int| 0 <= v < x implies b[v] by {
        // the values of a permutation cover 0..n
        lemma_permutation_covers(p, v);
    }
    lemma_count_full(b, 0, x);
}

/// A permutation holds every value below its length.
pub proof fn lemma_permutation_covers(p: Seq<u32>, v: int)
    requires
        is_permutation(p),
        p.len() <= u32::MAX,
        0 <= v < p.len(),
    ensures
        p.contains(v as u32),
{
    let n = p.len();
    lemma_presence_count(p, n, n as int);
    lemma_count_below_bound(p, n as int);
    assert(count_below(p, n as int) == n) by {
        lemma_count_below_all(p, n as int);
    }
    let b = presence(p, n);
    if !b[v] {
        lemma_count_split_clear(b, v, n as int);
    }
}

/// A clear entry keeps the count of `[0, n)` below `n`.
proof fn lemma_count_split_clear(b: Seq<bool>, v: int, n: int)
    requires
        0 <= v < n,
        !b[v],
    ensures
        count_in(b, 0, n) < n,
{
    crate::tree::lemma_count_split(b, 0, v, v + 1);
    crate::tree::lemma_count_split(b, 0, v + 1, n);
    crate::tree::lemma_count_bound(b, 0, v);
    crate::tree::lemma_count_bound(b, v + 1, n);
}

/// In a permutation, the Lehmer digit of a position is its value less the earlier values
/// below it.
pub proof fn lemma_digit_from_prefix(p: Seq<u32>, i: int)
    requires
        is_permutation(p),
        p.len() <= u32::MAX,
        0 <= i < p.len(),
    ensures
        lehmer_digit(p, i) == p[i] - count_below(p.take(i), p[i] as int),
        lehmer_digit(p, i) <= p.len() - 1 - i,
{
    let x = p[i] as int;
    lemma_permutation_count(p, x);
    assert(p =~= p.take(i) + seq![p[i]] + p.subrange(i + 1, p.len() as int));
    lemma_count_below_concat(p.take(i) + seq![p[i]], p.subrange(i + 1, p.len() as int), x);
    lemma_count_below_concat(p.take(i), seq![p[i]], x);
    assert(count_below(seq![p[i]], x) == 0) by {
        assert(seq![p[i]].drop_last() =~= Seq::<u32>::empty());
        assert(count_below(Seq::<u32>::empty(), x) == 0);
        assert(seq![p[i]].last() == p[i]);
    }
    lemma_count_below_bound(p.subrange(i + 1, p.len() as int), x);
}

/// A prefix whose entries are all valid holds distinct values below the length.
pub proof fn lemma_valid_prefix(p: Seq<u32>, k: int)
    requires
        0 <= k <= p.len(),
        forall|i: int| 0 <= i < k ==> #[trigger] valid_at(p, i),
    ensures
        forall|i: int| 0 <= i < p.take(k).len() ==> #[trigger] p.take(k)[i] < p.len(),
        forall|i: int, j: int|
            0 <= i < j < p.take(k).len() ==> #[trigger] p.take(k)[i] != #[trigger] p.take(k)[j],
{
    assert forall|i: int| 0 <= i < p.take(k).len() implies #[trigger] p.take(k)[i] < p.len() by {
        assert(valid_at(p, i));
    }
    assert forall|i: int, j: int|
        0 <= i < j < p.take(k).len() implies #[trigger] p.take(k)[i] != #[trigger] p.take(k)[j] by {
        assert(valid_at(p, j));
        assert(p.take(j)[i] == p[i]);
    }
}

/// Appending a value marks it present.
pub proof fn lemma_presence_push(q: Seq<u32>, v: u32, len: nat)
    requires
        v < len,
        len <= u32::MAX + 1,
    ensures
        presence(q.push(v), len) == presence(q, len).update(v as int, true),
{
    assert forall|w: int| 0 <= w < len implies presence(q.push(v), len)[w] == presence(
        q,
        len,
    ).update(v as int, true)[w] by {
        if w != v as int {
            if q.push(v).contains(w as u32) {
                let j = choose|j: int| 0 <= j < q.push(v).len() && q.push(v)[j] == w as u32;
                assert(j < q.len());
                assert(q[j] == w as u32);
            }
            if q.contains(w as u32) {
                let j = choose|j: int| 0 <= j < q.len() && q[j] == w as u32;
                assert(q.push(v)[j] == w as u32);
            }
        } else {
            assert(q.push(v)[q.len() as int] == v);
        }
    }
    assert(presence(q.push(v), len) =~= presence(q, len).update(v as int, true));
}

/// A sequence whose entries are all below `x` has all of them counted.
pub proof fn lemma_count_below_all(s: Seq<u32>, x: int)
    requires
        forall|i: int| 0 <= i < s.len() ==> #[trigger] s[i] < x,
    ensures
        count_below(s, x) == s.len(),
    decreases s.len(),
{
    if s.len() > 0 {
        lemma_count_below_all(s.drop_last(), x);
    }
}

} // verus!
