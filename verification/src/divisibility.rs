//! Divisibility and primality over the mathematical integers, with the
//! lemmas that the sieves, the factoriser and the primality tests rest on.

use vstd::arithmetic::div_mod::{
    lemma_fundamental_div_mod, lemma_mod_multiples_basic, lemma_small_mod,
};
use vstd::prelude::*;

verus! {

/// `d` divides `n`: `n` is a multiple of the positive integer `d`.
pub open spec fn divides(d: int, n: int) -> bool {
    d > 0 && n % d == 0
}

/// `n` is prime: at least 2, and no integer strictly between 1 and `n`
/// divides it.
pub open spec fn is_prime(n: int) -> bool {
    n >= 2 && forall|d: int| 2 <= d < n ==> !#[trigger] divides(d, n)
}

/// Every product `d * k` is a multiple of `d`.
pub proof fn lemma_divides_product(d: int, k: int)
    requires
        d > 0,
    ensures
        divides(d, d * k),
        divides(d, k * d),
{
    lemma_mod_multiples_basic(k, d);
    assert(d * k == k * d) by (nonlinear_arith);
}

/// A multiple of `d` is `d` times its quotient by `d`.
pub proof fn lemma_divides_quotient(d: int, n: int)
    requires
        divides(d, n),
    ensures
        n == d * (n / d),
{
    lemma_fundamental_div_mod(n, d);
}

/// Divisibility is transitive.
pub proof fn lemma_divides_transitive(a: int, b: int, c: int)
    requires
        divides(a, b),
        divides(b, c),
    ensures
        divides(a, c),
{
    lemma_divides_quotient(a, b);
    lemma_divides_quotient(b, c);
    let k = (b / a) * (c / b);
    assert(c == a * k) by (nonlinear_arith)
        requires
            b == a * (b / a),
            c == b * (c / b),
            k == (b / a) * (c / b),
    ;
    lemma_divides_product(a, k);
}

/// A divisor of a positive integer is not larger than it.
pub proof fn lemma_divisor_bound(d: int, n: int)
    requires
        divides(d, n),
        n > 0,
    ensures
        d <= n,
{
    lemma_divides_quotient(d, n);
    assert(d <= n) by (nonlinear_arith)
        requires
            n == d * (n / d),
            d > 0,
            n > 0,
    ;
}

/// A proper divisor `d` of `n` has a cofactor `n / d`, which is a proper
/// divisor too.
pub proof fn lemma_cofactor(d: int, n: int)
    requires
        divides(d, n),
        1 < d < n,
    ensures
        d * (n / d) == n,
        1 < n / d < n,
        divides(n / d, n),
{
    lemma_divides_quotient(d, n);
    let q = n / d;
    assert(1 < q < n) by (nonlinear_arith)
        requires
            n == d * q,
            1 < d < n,
    ;
    lemma_divides_product(q, d);
}

/// Between two consecutive multiples of `d` there is no multiple of `d`.
pub proof fn lemma_no_multiple_between(d: int, k: int, v: int)
    requires
        d > 0,
        d * k < v < d * (k + 1),
    ensures
        !divides(d, v),
{
    if divides(d, v) {
        lemma_divides_quotient(d, v);
        let q = v / d;
        assert(false) by (nonlinear_arith)
            requires
                d > 0,
                d * k < d * q < d * (k + 1),
        ;
    }
}

/// The least divisor of `n` that is at least 2.
pub open spec fn least_divisor(n: int) -> int {
    choose|d: int| 2 <= d <= n && #[trigger] divides(d, n) && forall|e: int|
        2 <= e < d ==> !#[trigger] divides(e, n)
}

proof fn lemma_least_divisor_from(n: int, from: int)
    requires
        n >= 2,
        2 <= from <= n,
        forall|e: int| 2 <= e < from ==> !#[trigger] divides(e, n),
    ensures
        exists|d: int|
            2 <= d <= n && #[trigger] divides(d, n) && forall|e: int|
                2 <= e < d ==> !#[trigger] divides(e, n),
    decreases n - from,
{
    if divides(from, n) {
    } else {
        assert(divides(n, n)) by {
            lemma_divides_product(n, 1);
        }
        lemma_least_divisor_from(n, from + 1);
    }
}

/// Every integer from 2 on has a least divisor above 1, and it is prime.
pub proof fn lemma_least_divisor_is_prime(n: int)
    requires
        n >= 2,
    ensures
        2 <= least_divisor(n) <= n,
        divides(least_divisor(n), n),
        is_prime(least_divisor(n)),
        forall|e: int| 2 <= e < least_divisor(n) ==> !#[trigger] divides(e, n),
{
    lemma_least_divisor_from(n, 2);
    let p = least_divisor(n);
    assert forall|e: int| 2 <= e < p implies !#[trigger] divides(e, p) by {
        if divides(e, p) {
            lemma_divides_transitive(e, p, n);
        }
    }
}

/// A composite integer has a prime divisor whose square does not exceed it.
pub proof fn lemma_composite_has_small_prime_divisor(n: int)
    requires
        n >= 2,
        !is_prime(n),
    ensures
        is_prime(least_divisor(n)),
        divides(least_divisor(n), n),
        least_divisor(n) * least_divisor(n) <= n,
{
    lemma_least_divisor_is_prime(n);
    let p = least_divisor(n);
    assert(p < n);
    lemma_cofactor(p, n);
    let q = n / p;
    assert(q >= p);
    assert(p * p <= n) by (nonlinear_arith)
        requires
            p * q == n,
            q >= p,
            p >= 2,
    ;
}

/// An integer with no divisor `d >= 2` such that `d * d <= n` is prime.
pub proof fn lemma_prime_by_small_divisors(n: int)
    requires
        n >= 2,
        forall|d: int| 2 <= d && d * d <= n ==> !#[trigger] divides(d, n),
    ensures
        is_prime(n),
{
    if !is_prime(n) {
        lemma_composite_has_small_prime_divisor(n);
    }
}

/// The difference of two multiples of `p` is a multiple of `p`:
/// if `p` divides `u` and `v == u - p * k`, then `p` divides `v`.
proof fn lemma_divides_difference(p: int, u: int, k: int, v: int)
    requires
        divides(p, u),
        v == u - p * k,
    ensures
        divides(p, v),
{
    lemma_divides_quotient(p, u);
    let c = u / p;
    assert(v == p * (c - k)) by (nonlinear_arith)
        requires
            u == p * c,
            v == u - p * k,
    ;
    lemma_divides_product(p, c - k);
}

/// Euclid's lemma: a prime that divides a product divides one of its
/// factors.
pub proof fn lemma_prime_divides_product(p: int, a: int, b: int)
    requires
        is_prime(p),
        a >= 0,
        divides(p, a * b),
    ensures
        divides(p, a) || divides(p, b),
    decreases a,
{
    if a == 0 || divides(p, a) {
    } else if a == 1 {
        assert(a * b == b) by (nonlinear_arith)
            requires
                a == 1,
        ;
    } else if a >= p {
        let r = a % p;
        let q = a / p;
        lemma_fundamental_div_mod(a, p);
        assert(r * b == a * b - p * (q * b)) by (nonlinear_arith)
            requires
                a == p * q + r,
        ;
        lemma_divides_difference(p, a * b, q * b, r * b);
        lemma_prime_divides_product(p, r, b);
        lemma_small_mod(r as nat, p as nat);
    } else {
        let s = p % a;
        let q = p / a;
        lemma_fundamental_div_mod(p, a);
        assert(s != 0) by {
            if s == 0 {
                assert(divides(a, p));
            }
        }
        lemma_divides_quotient(p, a * b);
        let c = (a * b) / p;
        assert(s * b == p * (b - q * c)) by (nonlinear_arith)
            requires
                p == a * q + s,
                a * b == p * c,
        ;
        lemma_divides_product(p, b - q * c);
        lemma_prime_divides_product(p, s, b);
        lemma_small_mod(s as nat, p as nat);
    }
}

/// A prime that divides a prime is that prime.
pub proof fn lemma_prime_divides_prime(p: int, q: int)
    requires
        is_prime(p),
        is_prime(q),
        divides(p, q),
    ensures
        p == q,
{
    lemma_divisor_bound(p, q);
}

/// Scaling both sides by a positive factor neither makes nor breaks
/// divisibility.
pub proof fn lemma_divides_scaled(c: int, d: int, m: int)
    requires
        c > 0,
        d > 0,
    ensures
        divides(c * d, c * m) <==> divides(d, m),
{
    assert(c * d > 0) by (nonlinear_arith)
        requires
            c > 0,
            d > 0,
    ;
    if divides(d, m) {
        lemma_divides_quotient(d, m);
        let j = m / d;
        assert(c * m == (c * d) * j) by (nonlinear_arith)
            requires
                m == d * j,
        ;
        lemma_divides_product(c * d, j);
    }
    if divides(c * d, c * m) {
        lemma_divides_quotient(c * d, c * m);
        let j = (c * m) / (c * d);
        assert(m == d * j) by (nonlinear_arith)
            requires
                c * m == (c * d) * j,
                c > 0,
        ;
        lemma_divides_product(d, j);
    }
}

} // verus!
