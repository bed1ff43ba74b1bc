//! How often one integer divides another, and what is left once it has
//! been divided out.

use crate::divisibility::{
    divides, is_prime, lemma_divides_product, lemma_divides_scaled, lemma_divides_transitive,
    lemma_prime_divides_prime, lemma_prime_divides_product,
};
use vstd::arithmetic::div_mod::lemma_fundamental_div_mod;
use vstd::arithmetic::power::{lemma_pow0, lemma_pow_positive, pow};
use vstd::prelude::*;

verus! {

/// How often `p` divides `n`: the largest `k` such that `p` to the `k`
/// divides `n`. It is 0 where `p` does not divide `n`, and for `n == 0` or
/// `p < 2`, where there is no largest `k`.
pub open spec fn multiplicity(n: nat, p: nat) -> nat
    decreases n,
    via multiplicity_decreases
{
    if n > 0 && p >= 2 && n % p == 0 {
        1 + multiplicity(n / p, p)
    } else {
        0
    }
}

#[via_fn]
proof fn multiplicity_decreases(n: nat, p: nat) {
    if n > 0 && p >= 2 && n % p == 0 {
        lemma_quotient_smaller(n, p);
    }
}

/// What is left of `n` once every factor `p` has been divided out.
pub open spec fn stripped(n: nat, p: nat) -> nat
    decreases n,
    via stripped_decreases
{
    if n > 0 && p >= 2 && n % p == 0 {
        stripped(n / p, p)
    } else {
        n
    }
}

#[via_fn]
proof fn stripped_decreases(n: nat, p: nat) {
    if n > 0 && p >= 2 && n % p == 0 {
        lemma_quotient_smaller(n, p);
    }
}

/// Dividing a positive multiple of `p >= 2` by `p` gives a smaller positive
/// number.
pub proof fn lemma_quotient_smaller(n: nat, p: nat)
    requires
        n > 0,
        p >= 2,
        n % p == 0,
    ensures
        0 < n / p < n,
        n == p * (n / p),
{
    lemma_fundamental_div_mod(n as int, p as int);
    let q = n as int / p as int;
    assert(0 < q < n) by (nonlinear_arith)
        requires
            n == p * q,
            n > 0,
            p >= 2,
    ;
}

/// The multiplicity of `p` in `n` is at most `n`.
pub proof fn lemma_multiplicity_bound(n: nat, p: nat)
    ensures
        multiplicity(n, p) <= n,
    decreases n,
{
    if n > 0 && p >= 2 && n % p == 0 {
        lemma_quotient_smaller(n, p);
        lemma_multiplicity_bound(n / p, p);
    }
}

/// A positive `n` is what is left of it after dividing out `p`, times `p`
/// to the power of its multiplicity; and `p` does not divide what is left.
pub proof fn lemma_stripped_times_power(n: nat, p: nat)
    requires
        n > 0,
        p >= 2,
    ensures
        stripped(n, p) > 0,
        !divides(p as int, stripped(n, p) as int),
        n == stripped(n, p) * pow(p as int, multiplicity(n, p)),
        divides(stripped(n, p) as int, n as int),
    decreases n,
{
    if n % p == 0 {
        lemma_quotient_smaller(n, p);
        lemma_stripped_times_power(n / p, p);
        let rest = stripped(n, p) as int;
        let lower = pow(p as int, multiplicity(n / p, p));
        assert(pow(p as int, multiplicity(n, p)) == p * lower) by {
            reveal(pow);
        }
        assert(n == rest * (p * lower)) by (nonlinear_arith)
            requires
                n == p * (n / p),
                (n / p) == rest * lower,
        ;
    } else {
        lemma_pow0(p as int);
    }
    lemma_divides_product(stripped(n, p) as int, pow(p as int, multiplicity(n, p)));
}

/// The multiplicity of `p` in a positive `n` is the largest exponent `k`
/// such that `p` to the `k` divides `n`: the powers of `p` that divide `n`
/// are those up to the multiplicity.
pub proof fn lemma_multiplicity_is_largest_power(n: nat, p: nat, k: nat)
    requires
        n > 0,
        p >= 2,
    ensures
        divides(pow(p as int, k), n as int) <==> k <= multiplicity(n, p),
    decreases k,
{
    lemma_pow_positive(p as int, k);
    if k == 0 {
        lemma_pow0(p as int);
    } else {
        let lower = pow(p as int, (k - 1) as nat);
        lemma_pow_positive(p as int, (k - 1) as nat);
        assert(pow(p as int, k) == p * lower) by {
            reveal(pow);
        }
        if n % p == 0 {
            lemma_quotient_smaller(n, p);
            lemma_multiplicity_is_largest_power(n / p, p, (k - 1) as nat);
            lemma_divides_scaled(p as int, lower, (n / p) as int);
        } else {
            lemma_divides_product(p as int, lower);
            if divides(pow(p as int, k), n as int) {
                lemma_divides_transitive(p as int, pow(p as int, k), n as int);
            }
        }
    }
}

/// Dividing a prime `p` out of `n` once leaves the multiplicity of every
/// other prime `q` as it was.
pub proof fn lemma_multiplicity_of_quotient(n: nat, p: nat, q: nat)
    requires
        n > 0,
        is_prime(p as int),
        is_prime(q as int),
        p != q,
        divides(p as int, n as int),
    ensures
        multiplicity(n / p, q) == multiplicity(n, q),
    decreases n,
{
    lemma_quotient_smaller(n, p);
    let m = n / p;
    if n % q == 0 {
        lemma_quotient_smaller(n, q);
        let k = n / q;
        // q divides p * m, so it divides m; p divides q * k, so it divides k
        assert(divides(q as int, (p * m) as int));
        lemma_prime_divides_product(q as int, p as int, m as int);
        if divides(q as int, p as int) {
            lemma_prime_divides_prime(q as int, p as int);
        }
        assert(divides(p as int, (q * k) as int));
        lemma_prime_divides_product(p as int, q as int, k as int);
        if divides(p as int, q as int) {
            lemma_prime_divides_prime(p as int, q as int);
        }
        lemma_quotient_smaller(m, q);
        lemma_quotient_smaller(k, p);
        assert(m / q == k / p) by (nonlinear_arith)
            requires
                n == p * m,
                n == q * k,
                m == q * (m / q),
                k == p * (k / p),
                p >= 2,
                q >= 2,
        ;
        lemma_multiplicity_of_quotient(k, p, q);
    } else {
        if m % q == 0 {
            lemma_divides_product(m as int, p as int);
            lemma_divides_transitive(q as int, m as int, n as int);
        }
    }
}

/// Dividing a prime `p` out of `n` altogether leaves the multiplicity of
/// every other prime `q` as it was.
pub proof fn lemma_multiplicity_after_strip(n: nat, p: nat, q: nat)
    requires
        n > 0,
        is_prime(p as int),
        is_prime(q as int),
        p != q,
    ensures
        multiplicity(stripped(n, p), q) == multiplicity(n, q),
    decreases n,
{
    if n % p == 0 {
        lemma_quotient_smaller(n, p);
        lemma_multiplicity_of_quotient(n, p, q);
        lemma_multiplicity_after_strip(n / p, p, q);
    }
}

} // verus!
