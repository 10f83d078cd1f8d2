//! Mixed-radix arithmetic: the factorial number system behind Lehmer codes.
use vstd::prelude::*;
use vstd::arithmetic::div_mod::{
    lemma_div_denominator, lemma_fundamental_div_mod, lemma_fundamental_div_mod_converse,
    lemma_mod_breakdown, lemma_mod_mod,
};
use vstd::arithmetic::mul::{lemma_mul_is_associative, lemma_mul_strictly_positive};

verus! {

/// `s * (s + 1) * ... * (s + k - 1)`: the product of `k` consecutive radices from `s` on.
pub open spec fn rising(s: nat, k: nat) -> nat
    decreases k,
{
    if k == 0 {
        1
    } else {
        rising(s, (k - 1) as nat) * (s + k - 1) as nat
    }
}

pub open spec fn factorial(n: nat) -> nat
    decreases n,
{
    if n == 0 {
        1
    } else {
        n * factorial((n - 1) as nat)
    }
}

/// Digit `k` of `c` in the mixed radix whose digit `j` has radix `s + j`.
pub open spec fn radix_digit(c: nat, s: nat, k: nat) -> nat {
    (c / rising(s, k)) % (s + k)
}

/// The first `len` digits of `c` in the mixed radix `s, s + 1, ...`, least significant first:
/// `c mod s`, `(c div s) mod (s + 1)`, and so on.
pub open spec fn radix_digits(c: nat, s: nat, len: nat) -> Seq<nat> {
    Seq::new(len, |k: int| radix_digit(c, s, k as nat))
}

/// The number whose digits, least significant first, are `e` in the radix `s, s + 1, ...`:
/// `e[0] + s * (e[1] + (s + 1) * (e[2] + ...))`.
pub open spec fn radix_value(e: Seq<nat>, s: nat) -> nat
    decreases e.len(),
{
    if e.len() == 0 {
        0
    } else {
        e[0] + s * radix_value(e.drop_first(), s + 1)
    }
}

/// Each digit is below its radix.
pub open spec fn radix_valid(e: Seq<nat>, s: nat) -> bool {
    forall|k: int| 0 <= k < e.len() ==> #[trigger] e[k] < s + k
}

/// Horner's rule over digits given most significant first, where the digit at index `i`
/// has radix `n - i`: `((d[0] * (n - 1) + d[1]) * (n - 2) + d[2]) * ...`.
pub open spec fn horner(d: Seq<nat>, n: nat) -> nat
    decreases d.len(),
{
    if d.len() == 0 {
        0
    } else {
        horner(d.drop_last(), n) * ((n + 1 - d.len()) as nat) + d.last()
    }
}

pub proof fn lemma_rising_positive(s: nat, k: nat)
    requires
        s >= 1,
    ensures
        rising(s, k) >= 1,
    decreases k,
{
    if k > 0 {
        lemma_rising_positive(s, (k - 1) as nat);
        lemma_mul_strictly_positive(rising(s, (k - 1) as nat) as int, (s + k - 1) as int);
    }
}

/// Peeling the first radix off: `rising(s, k + 1) == s * rising(s + 1, k)`.
pub proof fn lemma_rising_front(s: nat, k: nat)
    ensures
        rising(s, k + 1) == s * rising(s + 1, k),
    decreases k,
{
    if k > 0 {
        let r = rising(s + 1, (k - 1) as nat);
        lemma_rising_front(s, (k - 1) as nat);
        assert(rising(s, k + 1) == rising(s, k) * (s + k));
        assert(rising(s + 1, k) == r * (s + k));
        assert(rising(s, k) == s * r);
        assert((s * r) * (s + k) == s * (r * (s + k))) by (nonlinear_arith);
        assert(rising(s, k + 1) == s * rising(s + 1, k));
    } else {
        assert(rising(s, 0) == 1);
        assert(rising(s, 1) == rising(s, 0) * s);
        assert(rising(s + 1, 0) == 1);
        assert(rising(s, 1) == s * rising(s + 1, 0));
    }
}

/// `rising(s, a + b) == rising(s, a) * rising(s + a, b)`.
pub proof fn lemma_rising_split(s: nat, a: nat, b: nat)
    ensures
        rising(s, a + b) == rising(s, a) * rising(s + a, b),
    decreases b,
{
    if b > 0 {
        lemma_rising_split(s, a, (b - 1) as nat);
        assert(rising(s, a + b) == rising(s, (a + b - 1) as nat) * (s + a + b - 1));
        assert(rising(s + a, b) == rising(s + a, (b - 1) as nat) * (s + a + b - 1));
        lemma_mul_is_associative(
            rising(s, a) as int,
            rising(s + a, (b - 1) as nat) as int,
            (s + a + b - 1) as int,
        );
    } else {
        assert(rising(s + a, 0) == 1);
        assert(rising(s, a) * 1 == rising(s, a));
    }
}

/// `n! == 2 * 3 * ... * n`.
pub proof fn lemma_factorial_rising(n: nat)
    requires
        n >= 1,
    ensures
        factorial(n) == rising(2, (n - 1) as nat),
    decreases n,
{
    if n > 1 {
        lemma_factorial_rising((n - 1) as nat);
        let r = rising(2, (n - 2) as nat);
        assert(rising(2, (n - 1) as nat) == r * n);
        assert(n * r == r * n) by (nonlinear_arith);
    } else {
        assert(factorial(0) == 1);
        assert(rising(2, 0) == 1);
    }
}

/// Dividing by the first radix shifts the digits down by one.
pub proof fn lemma_radix_digit_shift(c: nat, s: nat, k: nat)
    requires
        s >= 1,
    ensures
        radix_digit(c, s, k + 1) == radix_digit(c / s, s + 1, k),
{
    lemma_rising_front(s, k);
    lemma_rising_positive(s + 1, k);
    lemma_div_denominator(c as int, s as int, rising(s + 1, k) as int);
}

/// Digits below their radices are exactly what successive division recovers, and their
/// value stays below the product of the radices.
pub proof fn lemma_digits_of_value(e: Seq<nat>, s: nat)
    requires
        s >= 1,
        radix_valid(e, s),
    ensures
        radix_value(e, s) < rising(s, e.len()),
        radix_digits(radix_value(e, s), s, e.len()) == e,
    decreases e.len(),
{
    if e.len() > 0 {
        let rest = e.drop_first();
        assert(radix_valid(rest, s + 1)) by {
            assert forall|k: int| 0 <= k < rest.len() implies #[trigger] rest[k] < s + 1 + k by {
                assert(e[k + 1] < s + (k + 1));
            }
        }
        lemma_digits_of_value(rest, s + 1);
        let v = radix_value(rest, s + 1);
        let c = radix_value(e, s);
        assert(e[0] < s + 0);
        lemma_fundamental_div_mod_converse(c as int, s as int, v as int, e[0] as int);
        lemma_rising_front(s, (e.len() - 1) as nat);
        assert(c < rising(s, e.len())) by (nonlinear_arith)
            requires
                c == e[0] + s * v,
                e[0] < s,
                v + 1 <= rising(s + 1, (e.len() - 1) as nat),
                rising(s, e.len()) == s * rising(s + 1, (e.len() - 1) as nat),
        ;
        let ds = radix_digits(c, s, e.len());
        assert forall|k: int| 0 <= k < e.len() implies ds[k] == e[k] by {
            if k == 0 {
                assert(rising(s, 0) == 1);
            } else {
                lemma_radix_digit_shift(c, s, (k - 1) as nat);
                assert(radix_digits(v, s + 1, rest.len())[k - 1] == rest[k - 1]);
            }
        }
        assert(ds =~= e);
    }
}

/// Successive division of a number below the product of the radices gives digits below
/// their radices, and those digits give the number back.
pub proof fn lemma_value_of_digits(c: nat, s: nat, len: nat)
    requires
        s >= 1,
        c < rising(s, len),
    ensures
        radix_valid(radix_digits(c, s, len), s),
        radix_value(radix_digits(c, s, len), s) == c,
    decreases len,
{
    let ds = radix_digits(c, s, len);
    assert forall|k: int| 0 <= k < ds.len() implies #[trigger] ds[k] < s + k by {
        lemma_fundamental_div_mod((c / rising(s, k as nat)) as int, (s + k) as int);
    }
    if len == 0 {
        assert(rising(s, 0) == 1);
    } else {
        let q = c / s;
        lemma_rising_front(s, (len - 1) as nat);
        lemma_rising_positive(s + 1, (len - 1) as nat);
        lemma_fundamental_div_mod(c as int, s as int);
        assert(q < rising(s + 1, (len - 1) as nat)) by (nonlinear_arith)
            requires
                c == s * q + c % s,
                0 <= c % s,
                c < s * rising(s + 1, (len - 1) as nat),
                s >= 1,
        ;
        lemma_value_of_digits(q, s + 1, (len - 1) as nat);
        let rest = radix_digits(q, s + 1, (len - 1) as nat);
        assert forall|k: int| 0 <= k < rest.len() implies ds.drop_first()[k] == rest[k] by {
            lemma_radix_digit_shift(c, s, k as nat);
        }
        assert(ds.drop_first() =~= rest);
        assert(rising(s, 0) == 1);
        assert(ds[0] == c % s);
    }
}

/// Splitting a number by the product of its first `k` radices splits its digits.
pub proof fn lemma_digits_split(c: nat, s: nat, k: nat, len: nat)
    requires
        s >= 1,
        k <= len,
    ensures
        rising(s, k) > 0,
        radix_digits(c, s, len) == radix_digits(c % rising(s, k), s, k) + radix_digits(
            c / rising(s, k),
            s + k,
            (len - k) as nat,
        ),
        c / rising(s, len) == (c / rising(s, k)) / rising(s + k, (len - k) as nat),
{
    let f = rising(s, k);
    lemma_rising_positive(s, k);
    lemma_rising_positive(s + k, (len - k) as nat);
    lemma_rising_split(s, k, (len - k) as nat);
    lemma_div_denominator(c as int, f as int, rising(s + k, (len - k) as nat) as int);
    let lhs = radix_digits(c, s, len);
    let rhs = radix_digits(c % f, s, k) + radix_digits(c / f, s + k, (len - k) as nat);
    assert forall|j: int| 0 <= j < len implies lhs[j] == rhs[j] by {
        if j < k {
            let jn = j as nat;
            let p = rising(s, jn);
            let g = rising(s + jn, (k - jn) as nat);
            lemma_rising_positive(s, jn);
            lemma_rising_positive(s + jn + 1, (k - jn - 1) as nat);
            lemma_rising_positive(s + jn, (k - jn) as nat);
            lemma_rising_split(s, jn, (k - jn) as nat);
            lemma_rising_front(s + jn, (k - jn - 1) as nat);
            // c % (p * g) == p * ((c / p) % g) + c % p
            lemma_mod_breakdown(c as int, p as int, g as int);
            lemma_fundamental_div_mod(c as int, p as int);
            lemma_fundamental_div_mod_converse(
                (c % f) as int,
                p as int,
                ((c / p) % g) as int,
                (c % p) as int,
            );
            lemma_mod_mod((c / p) as int, (s + j) as int, rising(s + jn + 1, (k - jn - 1) as nat) as int);
        } else {
            lemma_rising_split(s, k, (j - k) as nat);
            lemma_rising_positive(s + k, (j - k) as nat);
            lemma_div_denominator(c as int, f as int, rising(s + k, (j - k) as nat) as int);
        }
    }
    assert(lhs =~= rhs);
}

/// Horner's rule over digits, most significant first, is the mixed-radix value of the
/// reversed digits.
pub proof fn lemma_horner_radix(d: Seq<nat>, n: nat)
    requires
        d.len() <= n + 1,
    ensures
        horner(d, n) == radix_value(d.reverse(), (n + 1 - d.len()) as nat),
    decreases d.len(),
{
    if d.len() > 0 {
        let s = (n + 1 - d.len()) as nat;
        lemma_horner_radix(d.drop_last(), n);
        assert(d.reverse().drop_first() =~= d.drop_last().reverse());
        assert(d.reverse()[0] == d.last());
        let v = radix_value(d.drop_last().reverse(), s + 1);
        assert(horner(d, n) == v * s + d.last());
        assert(radix_value(d.reverse(), s) == d.last() + s * v);
        assert(v * s == s * v) by (nonlinear_arith);
    }
}

} // verus!
