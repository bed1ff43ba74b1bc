//! The Sieve of Eratosthenes over `[0, x]`.

use crate::bit_sieve::BitSieve;
use crate::divisibility::{
    divides, is_prime, lemma_divides_product, lemma_divides_transitive,
    lemma_no_multiple_between, lemma_prime_by_small_divisors,
};
use crate::integer_sqrt::{ceil_sqrt, is_ceil_sqrt, lemma_square_monotonic};
use crate::prime_list::{lemma_primes_in_step, primes_in, u32_values};
use vstd::arithmetic::div_mod::lemma_fundamental_div_mod;
use vstd::prelude::*;

verus! {

/// The flags of a finished sieve over `[0, len)`: flag `k` is set exactly
/// when `k` is prime.
pub open spec fn prime_flags(len: int) -> Seq<bool> {
    Seq::new(len as nat, |k: int| is_prime(k))
}

/// `k` has not been struck out by any candidate below `i`: it is at least 2
/// and no `d` with `2 <= d < i` and `d * d <= k` divides it.
pub open spec fn survives(k: int, i: int) -> bool {
    k >= 2 && forall|d: int| 2 <= d < i && d * d <= k ==> !#[trigger] divides(d, k)
}

/// Once every candidate up to the rounded-up square root of `x` has struck
/// out its multiples, the survivors up to `x` are the primes.
proof fn lemma_survivors_are_primes(x: int, bound: int, k: int)
    requires
        is_ceil_sqrt(x, bound),
        0 <= k <= x,
    ensures
        survives(k, bound + 1) == is_prime(k),
{
    if survives(k, bound + 1) {
        assert forall|d: int| 2 <= d && d * d <= k implies !#[trigger] divides(d, k) by {
            if d > bound {
                lemma_square_monotonic(bound + 1, d);
                assert((bound + 1) * (bound + 1) > bound * bound) by (nonlinear_arith)
                    requires
                        bound >= 0,
                ;
            }
        }
        lemma_prime_by_small_divisors(k);
    }
    if is_prime(k) {
        assert forall|d: int| 2 <= d < bound + 1 && d * d <= k implies !#[trigger] divides(
            d,
            k,
        ) by {
            assert(d < k) by (nonlinear_arith)
                requires
                    2 <= d,
                    d * d <= k,
            ;
        }
    }
}

/// A candidate that was struck out itself strikes out nothing new: each of
/// its multiples from its square on has a smaller divisor that did.
proof fn lemma_struck_candidate_adds_nothing(i: int, k: int)
    requires
        i >= 2,
        !survives(i, i),
    ensures
        survives(k, i + 1) == survives(k, i),
{
    if survives(k, i) && !survives(k, i + 1) {
        assert(divides(i, k) && i * i <= k);
        let d = choose|d: int| 2 <= d < i && d * d <= i && #[trigger] divides(d, i);
        lemma_divides_transitive(d, i, k);
        assert(d * d <= k) by (nonlinear_arith)
            requires
                2 <= d < i,
                i * i <= k,
        ;
    }
}

/// Strikes out the multiples of the candidate `i` in a sieve over `[0, x]`,
/// from its square on: clears the flag of `i * j` for every `j >= i` with
/// `i * j <= x`, and leaves the other flags as they are.
fn strike_from_square(sieve: &mut BitSieve, i: u64, x: u64)
    requires
        2 <= i <= x < usize::MAX,
        old(sieve)@.len() == x + 1,
    ensures
        final(sieve)@.len() == old(sieve)@.len(),
        forall|k: int|
            0 <= k <= x ==> #[trigger] final(sieve)@[k] == (old(sieve)@[k] && !(divides(
                i as int,
                k,
            ) && i * i <= k)),
{
    let ghost initial = sieve@;
    let mut j: u64 = i;
    while j <= x / i
        invariant
            2 <= i <= j,
            i <= x < usize::MAX,
            sieve@.len() == x + 1,
            forall|k: int|
                0 <= k <= x ==> #[trigger] sieve@[k] == (initial[k] && !(divides(i as int, k) && i
                    * i <= k < i * j)),
        decreases x + 1 - j,
    {
        proof {
            lemma_fundamental_div_mod(x as int, i as int);
            assert(i * j <= x && j <= x) by (nonlinear_arith)
                requires
                    0 <= j <= x / i,
                    x == i * (x / i) + x % i,
                    0 <= x % i,
                    i >= 2,
            ;
        }
        let multiple: u64 = i * j;
        sieve.clear(multiple as usize);
        proof {
            lemma_divides_product(i as int, j as int);
            assert(i * i <= i * j) by (nonlinear_arith)
                requires
                    0 <= i <= j,
            ;
            assert(i * (j + 1) == i * j + i) by (nonlinear_arith);
            assert forall|k: int| 0 <= k <= x implies #[trigger] sieve@[k] == (initial[k]
                && !(divides(i as int, k) && i * i <= k < i * (j + 1))) by {
                if i * j < k < i * (j + 1) {
                    lemma_no_multiple_between(i as int, j as int, k);
                }
            }
        }
        j += 1;
    }
    proof {
        lemma_fundamental_div_mod(x as int, i as int);
        assert(i * j > x) by (nonlinear_arith)
            requires
                j > x / i,
                x == i * (x / i) + x % i,
                x % i < i,
                i > 0,
        ;
    }
}

/// Builds the sieve of Eratosthenes over `[0, x]`: flag `k` of the result is
/// set exactly when `k` is prime.
///
/// Flags 0 and 1 are cleared first. Then each candidate `i` from 2 up to the
/// square root of `x`, rounded up, that is still flagged strikes out its
/// multiples `i * j` for `j >= i`, as long as `i * j <= x`. Candidates and
/// multiples are counted in 64 bits; the sieve holds `x + 1` flags, which
/// the precondition asks to be a length that `usize` can hold.
pub fn get_prime_bit_map(x: u64) -> (sieve: BitSieve)
    requires
        x < usize::MAX,
    ensures
        sieve@ == prime_flags(x + 1),
{
    let mut sieve = BitSieve::from_zero(x as usize);
    let bound: u64 = ceil_sqrt(x);
    let mut i: u64 = 2;
    assert forall|k: int| 0 <= k <= x implies sieve@[k] == survives(k, 2) by {}
    while i <= bound
        invariant
            2 <= i,
            i <= bound + 1 || i == 2,
            bound <= 0x1_0000_0000,
            x < usize::MAX,
            is_ceil_sqrt(x as int, bound as int),
            sieve@.len() == x + 1,
            forall|k: int| 0 <= k <= x ==> sieve@[k] == survives(k, i as int),
        decreases bound + 1 - i,
    {
        assert(i <= x) by (nonlinear_arith)
            requires
                2 <= i <= bound,
                (bound - 1) * (bound - 1) < x,
        ;
        if sieve.is_set(i as usize) {
            let ghost before = sieve@;
            strike_from_square(&mut sieve, i, x);
            proof {
                assert forall|k: int| 0 <= k <= x implies sieve@[k] == survives(k, i + 1) by {
                    assert(before[k] == survives(k, i as int));
                    assert(survives(k, i + 1) == (survives(k, i as int) && !(divides(i as int, k)
                        && i * i <= k)));
                }
            }
        } else {
            proof {
                assert forall|k: int| 0 <= k <= x implies sieve@[k] == survives(k, i + 1) by {
                    lemma_struck_candidate_adds_nothing(i as int, k);
                }
            }
        }
        i += 1;
    }
    proof {
        assert forall|k: int| 0 <= k <= x implies sieve@[k] == is_prime(k) by {
            if bound < 2 {
                assert(x <= 1) by (nonlinear_arith)
                    requires
                        x <= bound * bound,
                        0 <= bound < 2,
                ;
                assert(!is_prime(k));
                assert(!survives(k, 2));
            } else {
                lemma_survivors_are_primes(x as int, bound as int, k);
            }
        }
        assert(sieve@ =~= prime_flags(x + 1));
    }
    sieve
}

/// The primes below `x`, in increasing order.
///
/// Builds the sieve of Eratosthenes over every integer below `x` and reads
/// off the indices that are still flagged.
pub fn get_primes_less_than_x(x: u32) -> (primes: Vec<u32>)
    ensures
        u32_values(primes@) == primes_in(0, x as int),
{
    let mut primes: Vec<u32> = Vec::new();
    if x == 0 {
        assert(u32_values(primes@) =~= primes_in(0, 0));
        return primes;
    }
    let sieve = get_prime_bit_map((x - 1) as u64);
    let mut i: u32 = 0;
    assert(u32_values(primes@) =~= primes_in(0, 0));
    while i < x
        invariant
            i <= x,
            sieve@ == prime_flags(x as int),
            u32_values(primes@) == primes_in(0, i as int),
        decreases x - i,
    {
        proof {
            lemma_primes_in_step(0, i as int);
        }
        if sieve.is_set(i as usize) {
            let ghost before = primes@;
            primes.push(i);
            assert(u32_values(primes@) =~= u32_values(before).push(i as int));
        }
        i += 1;
    }
    primes
}

} // verus!
