//! Primality tests by trial division over the wheel of 6.

use crate::divisibility::{
    divides, is_prime, lemma_divides_transitive, lemma_prime_by_small_divisors,
};
use crate::integer_sqrt::lemma_square_monotonic;
use vstd::prelude::*;

verus! {

/// The candidate divisor `i` and its step `w` are in phase on the wheel
/// of 6: `i` is 5 mod 6 with step 2, or 1 mod 6 with step 4.
pub open spec fn on_wheel(i: int, w: int) -> bool {
    (i % 6 == 5 && w == 2) || (i % 6 == 1 && w == 4)
}

/// No integer from 2 up to, but not including, `i` divides `x`.
pub open spec fn no_divisor_below(x: int, i: int) -> bool {
    forall|d: int| 2 <= d < i ==> !#[trigger] divides(d, x)
}

/// An integer that neither 2 nor 3 divides has no divisor from 2 to 4.
proof fn lemma_wheel_start(x: int)
    requires
        !divides(2, x),
        !divides(3, x),
    ensures
        no_divisor_below(x, 5),
{
    if divides(4, x) {
        assert(divides(2, 4));
        lemma_divides_transitive(2, 4, x);
    }
}

/// One step on the wheel: if neither 2 nor 3 nor the candidate `i`
/// divides `x`, neither does any of the integers that the step skips.
proof fn lemma_wheel_step(x: int, i: int, w: int)
    requires
        on_wheel(i, w),
        i >= 5,
        no_divisor_below(x, i),
        !divides(i, x),
    ensures
        no_divisor_below(x, i + w),
        on_wheel(i + w, 6 - w),
{
    assert forall|d: int| 2 <= d < i + w implies !#[trigger] divides(d, x) by {
        if d > i && divides(d, x) {
            if d % 2 == 0 {
                assert(divides(2, d));
                lemma_divides_transitive(2, d, x);
                assert(divides(2, x));
            } else {
                assert(d % 3 == 0);
                assert(divides(3, d));
                lemma_divides_transitive(3, d, x);
                assert(divides(3, x));
            }
        }
    }
}

/// With no divisor below `i`, and the square of `i` above `x`, `x` is prime.
proof fn lemma_wheel_end(x: int, i: int)
    requires
        x >= 2,
        i >= 0,
        i * i > x,
        no_divisor_below(x, i),
    ensures
        is_prime(x),
{
    assert forall|d: int| 2 <= d && d * d <= x implies !#[trigger] divides(d, x) by {
        if d >= i {
            lemma_square_monotonic(i, d);
        }
    }
    lemma_prime_by_small_divisors(x);
}

/// The square of a `u32`, in 64 bits.
fn square_u32(i: u32) -> (square: u64)
    ensures
        square == i * i,
{
    assert(i * i <= 0xffff_ffff * 0xffff_ffff) by (nonlinear_arith)
        requires
            0 <= i <= 0xffff_ffff,
    ;
    i as u64 * i as u64
}

/// The square of a `u64`, in 128 bits.
fn square_u64(i: u64) -> (square: u128)
    ensures
        square == i * i,
{
    assert(i * i <= 0xffff_ffff_ffff_ffff * 0xffff_ffff_ffff_ffff) by (nonlinear_arith)
        requires
            0 <= i <= 0xffff_ffff_ffff_ffff,
    ;
    i as u128 * i as u128
}

/// Trial division of `x >= 2`: 2 and 3 first, then the candidates
/// `6k - 1` and `6k + 1`, in steps of 2 and 4 by turns, up to the square
/// root of `x`. The candidate is squared in 64 bits, so that the walk ends
/// for the largest values of `x` too.
fn is_u32_definitely_prime(x: u32) -> (prime: bool)
    requires
        x >= 2,
    ensures
        prime == is_prime(x as int),
{
    if x == 2 || x == 3 {
        assert(is_prime(x as int));
        return true;
    }
    if x % 2 == 0 || x % 3 == 0 {
        assert(divides(2, x as int) || divides(3, x as int));
        return false;
    }
    proof {
        lemma_wheel_start(x as int);
    }
    let mut i: u32 = 5;
    let mut w: u32 = 2;
    while square_u32(i) <= x as u64
        invariant
            x >= 5,
            i >= 5,
            on_wheel(i as int, w as int),
            !divides(2, x as int),
            !divides(3, x as int),
            no_divisor_below(x as int, i as int),
        decreases x - i,
    {
        assert(i < x && i <= 0xffff) by (nonlinear_arith)
            requires
                i * i <= x,
                i >= 5,
                x <= 0xffff_ffff,
        ;
        if x % i == 0 {
            assert(divides(i as int, x as int));
            return false;
        }
        proof {
            lemma_wheel_step(x as int, i as int, w as int);
        }
        i += w;
        w = 6 - w;
    }
    proof {
        lemma_wheel_end(x as int, i as int);
    }
    true
}

/// Trial division of `x >= 2`, as for 32 bits, with the candidate squared
/// in 128 bits.
fn is_u64_definitely_prime(x: u64) -> (prime: bool)
    requires
        x >= 2,
    ensures
        prime == is_prime(x as int),
{
    if x == 2 || x == 3 {
        assert(is_prime(x as int));
        return true;
    }
    if x % 2 == 0 || x % 3 == 0 {
        assert(divides(2, x as int) || divides(3, x as int));
        return false;
    }
    proof {
        lemma_wheel_start(x as int);
    }
    let mut i: u64 = 5;
    let mut w: u64 = 2;
    while square_u64(i) <= x as u128
        invariant
            x >= 5,
            i >= 5,
            on_wheel(i as int, w as int),
            !divides(2, x as int),
            !divides(3, x as int),
            no_divisor_below(x as int, i as int),
        decreases x - i,
    {
        assert(i < x && i <= 0xffff_ffff) by (nonlinear_arith)
            requires
                i * i <= x,
                i >= 5,
                x <= 0xffff_ffff_ffff_ffff,
        ;
        if x % i == 0 {
            assert(divides(i as int, x as int));
            return false;
        }
        proof {
            lemma_wheel_step(x as int, i as int, w as int);
        }
        i += w;
        w = 6 - w;
    }
    proof {
        lemma_wheel_end(x as int, i as int);
    }
    true
}

/// Whether `x` is prime, by exhaustive trial division. Values below 2 are
/// not prime.
pub fn is_u32_prime(x: u32) -> (prime: bool)
    ensures
        prime == is_prime(x as int),
{
    if x < 2 {
        return false;
    }
    is_u32_definitely_prime(x)
}

/// Whether `x` is prime, by exhaustive trial division. Values below 2 are
/// not prime.
pub fn is_u64_prime(x: u64) -> (prime: bool)
    ensures
        prime == is_prime(x as int),
{
    if x < 2 {
        return false;
    }
    is_u64_definitely_prime(x)
}

} // verus!
