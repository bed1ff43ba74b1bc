//! An offset sieve: the primes of an arbitrary range `[min, max)`, found
//! without sieving everything below `min`.

use crate::bit_sieve::BitSieve;
use crate::divisibility::{
    divides, is_prime, least_divisor, lemma_composite_has_small_prime_divisor,
    lemma_divides_product, lemma_divides_quotient, lemma_no_multiple_between,
};
use crate::integer_sqrt::{floor_sqrt, lemma_square_monotonic};
use crate::prime_list::{
    effective_min, lemma_primes_in_complete, lemma_primes_in_from_effective_min,
    lemma_primes_in_members, lemma_primes_in_step, primes_in, u32_values, u64_values,
};
use crate::sieve::get_primes_less_than_x;
use vstd::arithmetic::div_mod::lemma_fundamental_div_mod;
use vstd::prelude::*;

verus! {

/// The flag of candidate `v` in an offset sieve whose first flag stands for
/// `lo`.
pub open spec fn offset_flag(flags: Seq<bool>, lo: int, v: int) -> bool {
    flags[v - lo]
}

/// The seed prime `p` strikes out `k`: `k` is a multiple of `p` other than
/// `p` itself.
pub open spec fn strikes(p: int, k: int) -> bool {
    divides(p, k) && k > p
}

/// One of the first `s` seeds strikes out `k`.
pub open spec fn struck_by_seeds(seeds: Seq<u32>, s: int, k: int) -> bool {
    exists|t: int| 0 <= t < s && #[trigger] strikes(seeds[t] as int, k)
}

/// The first multiple of `prime` to strike out in a range that starts at
/// `lo`: the first one that is at least `lo` and is not `prime` itself.
fn first_multiple_to_strike(prime: u64, lo: u64) -> (first: u128)
    requires
        prime >= 2,
    ensures
        strikes(prime as int, first as int),
        lo <= first <= lo + 2 * prime,
        forall|k: int| lo <= k < first ==> !strikes(prime as int, k),
{
    let multiplier: u64 = if lo > prime {
        lo / prime
    } else {
        2
    };
    let ghost quotient: int = lo as int / prime as int;
    proof {
        lemma_fundamental_div_mod(lo as int, prime as int);
        assert(prime * quotient <= lo < prime * (quotient + 1) && (lo > prime ==> quotient >= 1))
            by (nonlinear_arith)
            requires
                lo == prime * quotient + lo % prime,
                0 <= lo % prime < prime,
        ;
        assert(prime * (quotient + 1) == prime * quotient + prime) by (nonlinear_arith);
        assert(multiplier * prime == prime * multiplier) by (nonlinear_arith);
        assert(prime * 2 == prime + prime);
    }
    let mut first: u128 = multiplier as u128 * prime as u128;
    let ghost mut m: int = multiplier as int;
    if first < lo as u128 {
        first += prime as u128;
        proof {
            m = m + 1;
        }
    }
    proof {
        lemma_divides_product(prime as int, m);
        assert(prime * m > prime) by (nonlinear_arith)
            requires
                m >= 2,
                prime >= 2,
        ;
        assert forall|k: int| lo <= k < first implies !strikes(prime as int, k) by {
            if strikes(prime as int, k) {
                lemma_divides_quotient(prime as int, k);
                let q = k / prime as int;
                assert(2 <= q < m) by (nonlinear_arith)
                    requires
                        k == prime * q,
                        prime < k < prime * m,
                        prime >= 2,
                ;
                assert(prime * q <= prime * (m - 1)) by (nonlinear_arith)
                    requires
                        q <= m - 1,
                        prime >= 0,
                ;
            }
        }
    }
    first
}

/// Strikes out the multiples of `prime` in an offset sieve over
/// `[lo, max)`: clears the flag of every multiple of `prime` in the range
/// but that of `prime` itself, and leaves the other flags as they are.
fn strike_multiples(sieve: &mut BitSieve, prime: u64, lo: u64, max: u64)
    requires
        prime >= 2,
        lo < max,
        max - lo <= usize::MAX,
        old(sieve)@.len() == max - lo,
    ensures
        final(sieve)@.len() == old(sieve)@.len(),
        forall|k: int|
            lo <= k < max ==> #[trigger] offset_flag(final(sieve)@, lo as int, k) == (offset_flag(
                old(sieve)@,
                lo as int,
                k,
            ) && !strikes(prime as int, k)),
{
    let ghost initial = sieve@;
    let mut val: u128 = first_multiple_to_strike(prime, lo);
    while val < max as u128
        invariant
            prime >= 2,
            lo < max,
            max - lo <= usize::MAX,
            sieve@.len() == max - lo,
            strikes(prime as int, val as int),
            lo <= val,
            forall|k: int|
                lo <= k < max ==> #[trigger] offset_flag(sieve@, lo as int, k) == (offset_flag(
                    initial,
                    lo as int,
                    k,
                ) && !(strikes(prime as int, k) && k < val)),
        decreases max + prime - val,
    {
        let ghost before = sieve@;
        sieve.clear((val - lo as u128) as usize);
        proof {
            lemma_divides_quotient(prime as int, val as int);
            let m = val as int / prime as int;
            lemma_divides_product(prime as int, m + 1);
            assert(prime * (m + 1) == prime * m + prime) by (nonlinear_arith);
            assert forall|k: int| lo <= k < max implies #[trigger] offset_flag(
                sieve@,
                lo as int,
                k,
            ) == (offset_flag(initial, lo as int, k) && !(strikes(prime as int, k) && k < val
                + prime)) by {
                assert(offset_flag(before, lo as int, k) == (offset_flag(initial, lo as int, k)
                    && !(strikes(prime as int, k) && k < val)));
                if val < k < val + prime {
                    lemma_no_multiple_between(prime as int, m, k);
                }
            }
        }
        val += prime as u128;
    }
}

/// When the seeds are the primes below `seed_bound`, and every prime whose
/// square is below `max` is below `seed_bound`, the candidates below `max`
/// that no seed strikes out are the primes.
proof fn lemma_unstruck_are_primes(seeds: Seq<u32>, seed_bound: int, max: int, k: int)
    requires
        u32_values(seeds) == primes_in(0, seed_bound),
        forall|p: int| is_prime(p) && p * p < max ==> p < seed_bound,
        2 <= k < max,
    ensures
        !struck_by_seeds(seeds, seeds.len() as int, k) == is_prime(k),
{
    let all = primes_in(0, seed_bound);
    assert(all.len() == seeds.len());
    if struck_by_seeds(seeds, seeds.len() as int, k) {
        let t = choose|t: int| 0 <= t < seeds.len() && #[trigger] strikes(seeds[t] as int, k);
        assert(all[t] == seeds[t] as int);
        lemma_primes_in_members(0, seed_bound, t);
        assert(!is_prime(k));
    }
    if !is_prime(k) {
        lemma_composite_has_small_prime_divisor(k);
        let p = least_divisor(k);
        assert(p < k) by (nonlinear_arith)
            requires
                p * p <= k,
                p >= 2,
        ;
        lemma_primes_in_complete(0, seed_bound, p);
        let t = choose|t: int| 0 <= t < all.len() && all[t] == p;
        assert(all[t] == seeds[t] as int);
        assert(strikes(seeds[t] as int, k));
    }
}

/// The primes `p` with `min <= p < max`, in increasing order.
///
/// The seeds are the primes up to the square root of `max`, found with the
/// full sieve. An offset sieve holds one flag for each candidate from the
/// lower end, which is `min` raised to 2, up to `max`; the flag of
/// candidate `v` has index `v` minus the lower end. Each seed strikes out
/// its multiples in the range, from the first one that is not the seed
/// itself, and the candidates still flagged are the primes.
///
/// The square root is an exact integer one and the multiples are counted in
/// 128 bits, so the result is exact for every `max`. The cost is not
/// bounded: the seeds alone take a sieve of about the square root of `max`
/// flags, and the range one flag for each candidate.
pub fn get_primes_between(min: u64, max: u64) -> (primes: Vec<u64>)
    requires
        max - effective_min(min as int) <= usize::MAX,
    ensures
        u64_values(primes@) == primes_in(min as int, max as int),
{
    let true_min: u64 = if min < 2 {
        2
    } else {
        min
    };
    let mut primes: Vec<u64> = Vec::new();
    proof {
        lemma_primes_in_from_effective_min(min as int, max as int);
    }
    if max <= true_min {
        assert(u64_values(primes@) =~= primes_in(true_min as int, max as int));
        return primes;
    }
    let highest_factor: u64 = floor_sqrt(max);
    let seed_bound: u32 = if highest_factor >= u32::MAX as u64 {
        u32::MAX
    } else {
        (highest_factor + 1) as u32
    };
    let seeds: Vec<u32> = get_primes_less_than_x(seed_bound);
    proof {
        assert forall|p: int| is_prime(p) && p * p < max implies p < seed_bound by {
            if p > highest_factor {
                lemma_square_monotonic(highest_factor + 1, p);
            }
            if p == u32::MAX {
                assert(divides(3, p));
            }
        }
    }

    let mut sieve = BitSieve::new((max - true_min) as usize);
    let mut s: usize = 0;
    while s < seeds.len()
        invariant
            s <= seeds.len(),
            2 <= true_min < max,
            max - true_min <= usize::MAX,
            u32_values(seeds@) == primes_in(0, seed_bound as int),
            sieve@.len() == max - true_min,
            forall|k: int|
                true_min <= k < max ==> #[trigger] offset_flag(sieve@, true_min as int, k)
                    == !struck_by_seeds(seeds@, s as int, k),
        decreases seeds.len() - s,
    {
        let prime: u64 = seeds[s] as u64;
        proof {
            assert(primes_in(0, seed_bound as int)[s as int] == seeds@[s as int] as int);
            lemma_primes_in_members(0, seed_bound as int, s as int);
        }
        let ghost before = sieve@;
        strike_multiples(&mut sieve, prime, true_min, max);
        proof {
            assert forall|k: int| true_min <= k < max implies #[trigger] offset_flag(
                sieve@,
                true_min as int,
                k,
            ) == !struck_by_seeds(seeds@, s + 1, k) by {
                assert(offset_flag(before, true_min as int, k) == !struck_by_seeds(
                    seeds@,
                    s as int,
                    k,
                ));
                if strikes(prime as int, k) {
                    assert(strikes(seeds@[s as int] as int, k));
                }
            }
        }
        s += 1;
    }

    let mut val: u64 = true_min;
    assert(u64_values(primes@) =~= primes_in(true_min as int, true_min as int));
    while val < max
        invariant
            2 <= true_min <= val <= max,
            max - true_min <= usize::MAX,
            sieve@.len() == max - true_min,
            u32_values(seeds@) == primes_in(0, seed_bound as int),
            forall|p: int| is_prime(p) && p * p < max ==> p < seed_bound,
            forall|k: int|
                true_min <= k < max ==> #[trigger] offset_flag(sieve@, true_min as int, k)
                    == !struck_by_seeds(seeds@, seeds@.len() as int, k),
            u64_values(primes@) == primes_in(true_min as int, val as int),
        decreases max - val,
    {
        proof {
            lemma_primes_in_step(true_min as int, val as int);
            lemma_unstruck_are_primes(seeds@, seed_bound as int, max as int, val as int);
            assert(offset_flag(sieve@, true_min as int, val as int) == is_prime(val as int));
        }
        if sieve.is_set((val - true_min) as usize) {
            let ghost before = primes@;
            primes.push(val);
            assert(u64_values(primes@) =~= u64_values(before).push(val as int));
        }
        val += 1;
    }
    primes
}

} // verus!
