//! What holds of Lehmer codes across calls: round trips, validation, and the ranking tree.
use vstd::prelude::*;
use crate::error::Error;
use crate::lehmer::{
    count_below, first_error, is_permutation, lehmer_code, lehmer_digit, lehmer_digits,
    lemma_digit_from_prefix, lemma_first_error_none, lemma_presence_count, lemma_valid_permutation,
    presence, valid_at, validation_error,
};
use crate::radix::{
    factorial, horner, lemma_digits_of_value, lemma_factorial_rising, lemma_horner_radix,
    radix_digits, radix_valid, radix_value,
};
use crate::tree::{count_in, free_in, lemma_select_side};

verus! {

/// The Lehmer digits of a permutation, all but the always-zero last one, least significant
/// first.
pub open spec fn radix_form(p: Seq<u32>) -> Seq<nat> {
    lehmer_digits(p).drop_last().reverse()
}

/// The code of a permutation is its digits in the mixed radix `2, 3, ..., N`, and those
/// digits are below their radices.
proof fn lemma_code_radix_form(p: Seq<u32>)
    requires
        is_permutation(p),
        1 <= p.len() <= u32::MAX,
    ensures
        lehmer_code(p) == radix_value(radix_form(p), 2),
        radix_valid(radix_form(p), 2),
{
    let n = p.len();
    let d = lehmer_digits(p);
    assert(d.last() == 0) by {
        assert(p.subrange(n as int, n as int) =~= Seq::<u32>::empty());
    }
    lemma_horner_radix(d.drop_last(), n);
    assert(horner(d, n) == horner(d.drop_last(), n) * 1 + d.last());
    assert(horner(d.drop_last(), n) * 1 == horner(d.drop_last(), n));
    let e = radix_form(p);
    assert forall|k: int| 0 <= k < e.len() implies #[trigger] e[k] < 2 + k by {
        lemma_digit_from_prefix(p, n - 2 - k);
    }
}

/// The Lehmer code of a permutation of `N` values lies below `N!`.
pub proof fn lemma_code_below_factorial(p: Seq<u32>)
    requires
        is_permutation(p),
        p.len() <= u32::MAX,
    ensures
        lehmer_code(p) < factorial(p.len()),
{
    if p.len() == 0 {
        assert(factorial(0) == 1);
    } else {
        lemma_code_radix_form(p);
        lemma_digits_of_value(radix_form(p), 2);
        lemma_factorial_rising(p.len());
    }
}

/// Decoding gives back what encoding was given: the code of a permutation `p` of `N`
/// values lies below `N!`, so it decodes, and the only permutation of `N` values with that
/// code is `p` itself.
pub proof fn lemma_round_trip(p: Seq<u32>, q: Seq<u32>)
    requires
        is_permutation(p),
        p.len() <= u32::MAX,
    ensures
        lehmer_code(p) < factorial(p.len()),
        is_permutation(q) && q.len() == p.len() && lehmer_code(q) == lehmer_code(p) ==> q == p,
{
    lemma_code_below_factorial(p);
    if is_permutation(q) && q.len() == p.len() && lehmer_code(q) == lehmer_code(p) && p.len() > 0 {
        let n = p.len();
        lemma_code_radix_form(p);
        lemma_code_radix_form(q);
        lemma_digits_of_value(radix_form(p), 2);
        lemma_digits_of_value(radix_form(q), 2);
        assert forall|i: int| 0 <= i < n implies lehmer_digit(p, i) == lehmer_digit(q, i) by {
            if i < n - 1 {
                assert(radix_form(p)[n - 2 - i] == radix_form(q)[n - 2 - i]);
            } else {
                assert(p.subrange(n as int, n as int) =~= Seq::<u32>::empty());
                assert(q.subrange(n as int, n as int) =~= Seq::<u32>::empty());
            }
        }
        lemma_same_digits_same_prefix(p, q, n as int);
        assert(p.take(n as int) =~= p);
        assert(q.take(n as int) =~= q);
    }
}

/// Two permutations with the same Lehmer digits agree entry by entry.
proof fn lemma_same_digits_same_prefix(p: Seq<u32>, q: Seq<u32>, k: int)
    requires
        is_permutation(p),
        is_permutation(q),
        p.len() == q.len() <= u32::MAX,
        0 <= k <= p.len(),
        forall|i: int| 0 <= i < p.len() ==> lehmer_digit(p, i) == lehmer_digit(q, i),
    ensures
        p.take(k) == q.take(k),
    decreases k,
{
    if k > 0 {
        let i = k - 1;
        lemma_same_digits_same_prefix(p, q, i);
        let s = p.take(i);
        let n = p.len();
        let b = presence(s, n);
        assert forall|j: int| 0 <= j < s.len() implies #[trigger] s[j] < n by {}
        assert forall|a: int, c: int| 0 <= a < c < s.len() implies #[trigger] s[a]
            != #[trigger] s[c] by {}
        lemma_presence_count(s, n, p[i] as int);
        lemma_presence_count(s, n, q[i] as int);
        lemma_digit_from_prefix(p, i);
        lemma_digit_from_prefix(q, i);
        assert(q.take(i) == s);
        assert(!b[p[i] as int]) by {
            if s.contains(p[i]) {
                let j = choose|j: int| 0 <= j < s.len() && s[j] == p[i];
                assert(p[j] == p[i]);
            }
        }
        assert(!b[q[i] as int]) by {
            if s.contains(q[i]) {
                let j = choose|j: int| 0 <= j < s.len() && s[j] == q[i];
                assert(q[j] == q[i]);
            }
        }
        lemma_select_side(b, p[i] as int, q[i] as int);
        lemma_select_side(b, q[i] as int, p[i] as int);
        assert(p.take(k) =~= q.take(k)) by {
            assert forall|j: int| 0 <= j < k implies p.take(k)[j] == q.take(k)[j] by {
                if j < i {
                    assert(p.take(i)[j] == q.take(i)[j]);
                }
            }
        }
    }
}

/// What a first error found among `k` entries says of those entries.
proof fn lemma_first_error_kind(p: Seq<u32>, k: int)
    requires
        0 <= k <= p.len(),
    ensures
        first_error(p, k) == Some(Error::ValidationOutOfRange) ==> exists|i: int|
            0 <= i < k && #[trigger] p[i] >= p.len(),
        first_error(p, k) == Some(Error::ValidationDuplicateNumber) ==> exists|i: int|
            0 <= i < k && #[trigger] p.take(i).contains(p[i]),
        first_error(p, k) is Some ==> first_error(p, k) == Some(Error::ValidationOutOfRange)
            || first_error(p, k) == Some(Error::ValidationDuplicateNumber),
    decreases k,
{
    if k > 0 {
        lemma_first_error_kind(p, k - 1);
    }
}

/// A sequence holding a repeated value, and otherwise only values below its length, is
/// refused as holding a duplicate; one holding a value not below its length, and no
/// repeated value, is refused as out of range.
pub proof fn lemma_rejection(p: Seq<u32>)
    ensures
        (forall|i: int| 0 <= i < p.len() ==> #[trigger] p[i] < p.len()) && (exists|i: int, j: int|
            0 <= i < j < p.len() && #[trigger] p[i] == #[trigger] p[j]) ==> validation_error(p)
            == Some(Error::ValidationDuplicateNumber),
        (forall|i: int, j: int| 0 <= i < j < p.len() ==> #[trigger] p[i] != #[trigger] p[j]) && (
        exists|i: int| 0 <= i < p.len() && #[trigger] p[i] >= p.len()) ==> validation_error(p)
            == Some(Error::ValidationOutOfRange),
{
    let n = p.len() as int;
    lemma_first_error_none(p, n);
    lemma_first_error_kind(p, n);
    lemma_valid_permutation(p);
    if (forall|i: int| 0 <= i < p.len() ==> #[trigger] p[i] < p.len()) && (exists|i: int, j: int|
        0 <= i < j < p.len() && #[trigger] p[i] == #[trigger] p[j]) {
        assert(!is_permutation(p));
    }
    if (forall|i: int, j: int| 0 <= i < j < p.len() ==> #[trigger] p[i] != #[trigger] p[j]) && (
    exists|i: int| 0 <= i < p.len() && #[trigger] p[i] >= p.len()) {
        assert(!is_permutation(p));
        if validation_error(p) == Some(Error::ValidationDuplicateNumber) {
            let i = choose|i: int| 0 <= i < n && #[trigger] p.take(i).contains(p[i]);
            let j = choose|j: int| 0 <= j < p.take(i).len() && p.take(i)[j] == p[i];
            assert(p[j] == p[i]);
        }
    }
}

/// Inserting the entries of a permutation into the ranking tree in order yields its
/// Lehmer digits: with the first `i` entries inserted, `insert(p[i])` returns `d[i]`,
/// the number of later entries below `p[i]`.
pub proof fn lemma_rank_digit(p: Seq<u32>, leaves: nat, i: int)
    requires
        is_permutation(p),
        p.len() <= leaves <= u32::MAX + 1,
        p.len() <= u32::MAX,
        0 <= i < p.len(),
    ensures
        p[i] - count_in(presence(p.take(i), leaves), 0, p[i] as int) == lehmer_digit(p, i),
{
    let s = p.take(i);
    assert forall|j: int| 0 <= j < s.len() implies #[trigger] s[j] < leaves by {}
    assert forall|a: int, c: int| 0 <= a < c < s.len() implies #[trigger] s[a] != #[trigger] s[c] by {}
    lemma_presence_count(s, leaves, p[i] as int);
    lemma_digit_from_prefix(p, i);
}

} // verus!
