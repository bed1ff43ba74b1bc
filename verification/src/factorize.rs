//! Factorisation of an integer against a list of candidate primes.

use crate::divisibility::{
    divides, is_prime, least_divisor, lemma_composite_has_small_prime_divisor,
    lemma_divides_product, lemma_divides_transitive, lemma_divisor_bound,
    lemma_least_divisor_is_prime, lemma_prime_divides_prime,
};
use crate::multiplicity::{
    lemma_multiplicity_after_strip, lemma_multiplicity_bound, lemma_quotient_smaller,
    lemma_stripped_times_power, multiplicity, stripped,
};
use std::collections::HashMap;
use vstd::arithmetic::power::{lemma_pow0, lemma_pow1, pow};
use vstd::prelude::*;

verus! {

broadcast use vstd::std_specs::hash::group_hash_axioms;

/// Every candidate is at least 2.
pub open spec fn candidates_valid(ps: Seq<u32>) -> bool {
    forall|i: int| 0 <= i < ps.len() ==> ps[i] >= 2
}

/// Every candidate is prime.
pub open spec fn all_prime(ps: Seq<u32>) -> bool {
    forall|i: int| 0 <= i < ps.len() ==> is_prime(#[trigger] ps[i] as int)
}

/// What is left of `x` after the candidates of `ps` have been divided out
/// of it, one after the other in list order.
pub open spec fn remainder_after(x: nat, ps: Seq<u32>) -> nat
    decreases ps.len(),
{
    if ps.len() == 0 {
        x
    } else {
        stripped(remainder_after(x, ps.drop_last()), ps.last() as nat)
    }
}

/// The candidates of `ps` that divide what is left of `x` when their turn
/// comes, each with the number of times it then divides.
pub open spec fn found_factors(x: nat, ps: Seq<u32>) -> Map<u32, u32>
    decreases ps.len(),
{
    if ps.len() == 0 {
        Map::empty()
    } else {
        let earlier = found_factors(x, ps.drop_last());
        let count = multiplicity(remainder_after(x, ps.drop_last()), ps.last() as nat);
        if count > 0 {
            earlier.insert(ps.last(), count as u32)
        } else {
            earlier
        }
    }
}

/// The factor counts of `x` against the candidates `ps`: the factors found
/// by dividing the candidates out in list order or, where none divides,
/// `x` itself with count 1.
pub open spec fn factor_counts(x: u32, ps: Seq<u32>) -> Map<u32, u32> {
    let found = found_factors(x as nat, ps);
    if found.is_empty() {
        Map::empty().insert(x, 1u32)
    } else {
        found
    }
}

/// The primes of the list that divide `x`, each with its multiplicity
/// in `x`.
pub open spec fn listed_prime_powers(x: nat, ps: Seq<u32>) -> Map<u32, u32> {
    Map::new(
        |p: u32| ps.contains(p) && divides(p as int, x as int),
        |p: u32| multiplicity(x, p as nat) as u32,
    )
}

/// The factor counts of `x` against a list of primes, said directly: the
/// listed primes that divide `x`, each with its multiplicity in `x`, or
/// `x` itself with count 1 where no listed prime divides it.
pub open spec fn prime_factor_counts(x: u32, ps: Seq<u32>) -> Map<u32, u32> {
    let listed = listed_prime_powers(x as nat, ps);
    if listed.is_empty() {
        Map::empty().insert(x, 1u32)
    } else {
        listed
    }
}

/// The product, over the entries of a finite map of factor counts, of each
/// key to the power of its count.
pub open spec fn power_product(counts: Map<u32, u32>) -> int
    decreases counts.dom().len(),
    when counts.dom().finite()
{
    if counts.dom().len() == 0 {
        1
    } else {
        let key = counts.dom().choose();
        pow(key as int, counts[key] as nat) * power_product(counts.remove(key))
    }
}

/// Whether every candidate of the list is at least 2, as
/// `get_prime_factors_with_counts` asks of its list.
pub fn candidates_are_valid(primes: &Vec<u32>) -> (valid: bool)
    ensures
        valid == candidates_valid(primes@),
{
    let mut i: usize = 0;
    while i < primes.len()
        invariant
            i <= primes.len(),
            forall|j: int| 0 <= j < i ==> primes@[j] >= 2,
        decreases primes.len() - i,
    {
        if primes[i] < 2 {
            return false;
        }
        i += 1;
    }
    true
}

/// The factor counts of `x` against a list of candidate primes.
///
/// The candidates are tried in list order: each is divided out of what is
/// left of `x` as often as it divides, and recorded with that count when it
/// divided at all. The walk ends when 1 is left or the list is used up. If
/// no candidate divided, `x` is recorded as its own factor with count 1.
///
/// A prime factor of `x` that the list lacks is silently missing from the
/// result: the counts multiply back to `x` only where `primes` holds every
/// prime factor of `x`, or none that divides it. With every prime up to the
/// square root of `x` in the list, at most one prime factor can be missing.
pub fn get_prime_factors_with_counts(x: u32, primes: &Vec<u32>) -> (counts: HashMap<u32, u32>)
    requires
        candidates_valid(primes@),
    ensures
        counts@ == factor_counts(x, primes@),
        x > 0 && all_prime(primes@) ==> counts@ == prime_factor_counts(x, primes@),
{
    proof {
        if x > 0 && all_prime(primes@) {
            lemma_factor_counts_of_primes(x, primes@);
        }
    }
    let mut counts: HashMap<u32, u32> = HashMap::new();
    let mut primes_index: usize = 0;
    let mut drop_x: u32 = x;
    assert(primes@.take(0) =~= Seq::<u32>::empty());
    while drop_x > 1 && primes_index < primes.len()
        invariant
            primes_index <= primes.len(),
            candidates_valid(primes@),
            drop_x == remainder_after(x as nat, primes@.take(primes_index as int)),
            counts@ == found_factors(x as nat, primes@.take(primes_index as int)),
        decreases primes.len() - primes_index,
    {
        let prime: u32 = primes[primes_index];
        let mut prime_count: u32 = 0;
        let ghost start: u32 = drop_x;
        while drop_x % prime == 0
            invariant
                prime >= 2,
                1 <= drop_x <= start,
                prime_count + drop_x <= start,
                multiplicity(start as nat, prime as nat) == prime_count + multiplicity(
                    drop_x as nat,
                    prime as nat,
                ),
                stripped(start as nat, prime as nat) == stripped(drop_x as nat, prime as nat),
            decreases drop_x,
        {
            proof {
                lemma_quotient_smaller(drop_x as nat, prime as nat);
            }
            prime_count += 1;
            drop_x = drop_x / prime;
        }
        if prime_count != 0 {
            counts.insert(prime, prime_count);
        }
        primes_index += 1;
        proof {
            let upto = primes@.take(primes_index as int);
            assert(upto.drop_last() =~= primes@.take(primes_index - 1));
            assert(upto.last() == prime);
        }
    }
    proof {
        if primes_index < primes.len() {
            lemma_walk_finished(
                x as nat,
                primes@,
                primes_index as int,
                primes@.len() as int,
            );
        }
        assert(primes@.take(primes@.len() as int) =~= primes@);
        let found = found_factors(x as nat, primes@);
        assert(found == counts@);
        assert(counts@.dom().finite());
        vstd::set_lib::lemma_set_empty_equivalency_len(counts@.dom());
    }
    if counts.len() == 0 {
        counts.insert(x, 1);
    }
    counts
}

/// Once nothing but 0 or 1 is left, the remaining candidates find nothing.
proof fn lemma_walk_finished(x: nat, ps: Seq<u32>, done: int, upto: int)
    requires
        0 <= done <= upto <= ps.len(),
        remainder_after(x, ps.take(done)) <= 1,
    ensures
        remainder_after(x, ps.take(upto)) == remainder_after(x, ps.take(done)),
        found_factors(x, ps.take(upto)) == found_factors(x, ps.take(done)),
    decreases upto - done,
{
    if done < upto {
        lemma_walk_finished(x, ps, done, upto - 1);
        assert(ps.take(upto).drop_last() =~= ps.take(upto - 1));
        let left = remainder_after(x, ps.take(upto - 1));
        let p = ps.take(upto).last() as nat;
        if left == 1 && p >= 2 {
            assert(1nat % p == 1) by (nonlinear_arith)
                requires
                    p >= 2,
            ;
        }
    }
}

/// Nothing can be divided out of 0: the walk leaves 0.
proof fn lemma_remainder_of_zero(ps: Seq<u32>)
    ensures
        remainder_after(0, ps) == 0,
    decreases ps.len(),
{
    if ps.len() > 0 {
        lemma_remainder_of_zero(ps.drop_last());
    }
}

/// After a walk over primes, what is left of a positive `x` is positive,
/// holds no prime of the list, and holds every other prime as often as `x`
/// does.
pub proof fn lemma_remainder_multiplicity(x: nat, ps: Seq<u32>, q: u32)
    requires
        x > 0,
        all_prime(ps),
        is_prime(q as int),
    ensures
        remainder_after(x, ps) > 0,
        multiplicity(remainder_after(x, ps), q as nat) == if ps.contains(q) {
            0
        } else {
            multiplicity(x, q as nat)
        },
    decreases ps.len(),
{
    if ps.len() > 0 {
        let earlier = ps.drop_last();
        let p = ps.last();
        assert(is_prime(ps[ps.len() - 1] as int));
        assert forall|i: int| 0 <= i < earlier.len() implies is_prime(
            #[trigger] earlier[i] as int,
        ) by {
            assert(earlier[i] == ps[i]);
        }
        lemma_remainder_multiplicity(x, earlier, q);
        let left = remainder_after(x, earlier);
        lemma_stripped_times_power(left, p as nat);
        if q == p {
            assert(ps[ps.len() - 1] == q);
        } else {
            lemma_multiplicity_after_strip(left, p as nat, q as nat);
            if earlier.contains(q) {
                let i = choose|i: int| 0 <= i < earlier.len() && earlier[i] == q;
                assert(ps[i] == q);
            }
            if ps.contains(q) {
                let i = choose|i: int| 0 <= i < ps.len() && ps[i] == q;
                assert(earlier[i] == q);
            }
        }
    }
}

/// Against a list of primes, the walk finds exactly the listed primes that
/// divide `x`, each with its multiplicity in `x`.
pub proof fn lemma_found_factors_of_primes(x: nat, ps: Seq<u32>)
    requires
        x > 0,
        all_prime(ps),
    ensures
        found_factors(x, ps) == listed_prime_powers(x, ps),
    decreases ps.len(),
{
    if ps.len() == 0 {
        assert(found_factors(x, ps) =~= listed_prime_powers(x, ps));
    } else {
        let earlier = ps.drop_last();
        let p = ps.last();
        assert(is_prime(ps[ps.len() - 1] as int));
        assert forall|i: int| 0 <= i < earlier.len() implies is_prime(
            #[trigger] earlier[i] as int,
        ) by {
            assert(earlier[i] == ps[i]);
        }
        lemma_found_factors_of_primes(x, earlier);
        lemma_remainder_multiplicity(x, earlier, p);
        assert forall|q: u32| ps.contains(q) == (earlier.contains(q) || q == p) by {
            if earlier.contains(q) {
                let i = choose|i: int| 0 <= i < earlier.len() && earlier[i] == q;
                assert(ps[i] == q);
            }
            if q == p {
                assert(ps[ps.len() - 1] == q);
            }
            if ps.contains(q) && q != p {
                let i = choose|i: int| 0 <= i < ps.len() && ps[i] == q;
                assert(earlier[i] == q);
            }
        }
        assert(found_factors(x, ps) =~= listed_prime_powers(x, ps));
    }
}

/// Against a list of primes, the factor counts of a positive `x` are the
/// listed primes that divide it with their multiplicities, or `x` itself.
pub proof fn lemma_factor_counts_of_primes(x: u32, ps: Seq<u32>)
    requires
        x > 0,
        all_prime(ps),
    ensures
        factor_counts(x, ps) == prime_factor_counts(x, ps),
{
    lemma_found_factors_of_primes(x as nat, ps);
}

/// The product of the powers does not depend on the order of the entries:
/// any one entry can be taken out first.
pub proof fn lemma_power_product_remove(counts: Map<u32, u32>, key: u32)
    requires
        counts.dom().finite(),
        counts.contains_key(key),
    ensures
        power_product(counts) == pow(key as int, counts[key] as nat) * power_product(
            counts.remove(key),
        ),
    decreases counts.dom().len(),
{
    let first = counts.dom().choose();
    if first != key {
        lemma_power_product_remove(counts.remove(first), key);
        lemma_power_product_remove(counts.remove(key), first);
        assert(counts.remove(first).remove(key) =~= counts.remove(key).remove(first));
        let a = pow(first as int, counts[first] as nat);
        let b = pow(key as int, counts[key] as nat);
        let rest = power_product(counts.remove(key).remove(first));
        assert(a * (b * rest) == b * (a * rest)) by (nonlinear_arith);
    }
}

/// A new entry multiplies the product by its key to the power of its count.
pub proof fn lemma_power_product_insert(counts: Map<u32, u32>, key: u32, count: u32)
    requires
        counts.dom().finite(),
        !counts.contains_key(key),
    ensures
        power_product(counts.insert(key, count)) == pow(key as int, count as nat)
            * power_product(counts),
{
    lemma_power_product_remove(counts.insert(key, count), key);
    assert(counts.insert(key, count).remove(key) =~= counts);
}

/// The factors found are finitely many, each of them is a candidate of
/// the list, and none of them divides what is left of a positive `x`.
pub proof fn lemma_found_factors_keys(x: nat, ps: Seq<u32>, key: u32)
    requires
        0 < x <= u32::MAX,
        candidates_valid(ps),
    ensures
        found_factors(x, ps).dom().finite(),
        0 < remainder_after(x, ps) <= x,
        divides(remainder_after(x, ps) as int, x as int),
        found_factors(x, ps).contains_key(key) ==> ps.contains(key) && !divides(
            key as int,
            remainder_after(x, ps) as int,
        ),
    decreases ps.len(),
{
    if ps.len() == 0 {
        lemma_divides_product(x as int, 1);
    } else {
        let earlier = ps.drop_last();
        let p = ps.last();
        lemma_found_factors_keys(x, earlier, key);
        let left = remainder_after(x, earlier);
        lemma_stripped_times_power(left, p as nat);
        let rest = stripped(left, p as nat);
        lemma_divides_transitive(rest as int, left as int, x as int);
        lemma_divisor_bound(rest as int, left as int);
        if found_factors(x, ps).contains_key(key) {
            if found_factors(x, earlier).contains_key(key) {
                let i = choose|i: int| 0 <= i < earlier.len() && earlier[i] == key;
                assert(ps[i] == key);
                if divides(key as int, rest as int) {
                    lemma_divides_transitive(key as int, rest as int, left as int);
                }
            } else {
                assert(key == p);
                assert(ps[ps.len() - 1] == key);
            }
        }
    }
}

/// A positive `x` is what the walk leaves of it times the product of the
/// powers that the walk found.
pub proof fn lemma_walk_product(x: nat, ps: Seq<u32>)
    requires
        0 < x <= u32::MAX,
        candidates_valid(ps),
    ensures
        x == remainder_after(x, ps) * power_product(found_factors(x, ps)),
    decreases ps.len(),
{
    if ps.len() == 0 {
    } else {
        let earlier = ps.drop_last();
        let p = ps.last();
        lemma_walk_product(x, earlier);
        lemma_found_factors_keys(x, earlier, p);
        let left = remainder_after(x, earlier);
        let count = multiplicity(left, p as nat);
        lemma_stripped_times_power(left, p as nat);
        lemma_multiplicity_bound(left, p as nat);
        let rest = stripped(left, p as nat) as int;
        let power = pow(p as int, count);
        let product = power_product(found_factors(x, earlier));
        if count > 0 {
            assert(divides(p as int, left as int));
            lemma_power_product_insert(found_factors(x, earlier), p, count as u32);
            assert(x == rest * (power * product)) by (nonlinear_arith)
                requires
                    x == left * product,
                    left == rest * power,
            ;
        } else {
            lemma_pow0(p as int);
        }
    }
}

/// Where the walk leaves 1, or finds no factor at all, the factor counts
/// multiply back to `x`: the product of each key to the power of its count
/// is `x`.
pub proof fn lemma_factor_counts_multiply_back(x: u32, ps: Seq<u32>)
    requires
        candidates_valid(ps),
        remainder_after(x as nat, ps) == 1 || found_factors(x as nat, ps).is_empty(),
    ensures
        power_product(factor_counts(x, ps)) == x,
{
    let found = found_factors(x as nat, ps);
    if found.is_empty() {
        let alone = Map::<u32, u32>::empty().insert(x, 1u32);
        lemma_power_product_insert(Map::<u32, u32>::empty(), x, 1u32);
        lemma_pow1(x as int);
        assert(power_product(Map::<u32, u32>::empty()) == 1);
    } else {
        if x == 0 {
            assert(remainder_after(0, ps) == 0) by {
                lemma_remainder_of_zero(ps);
            }
        }
        lemma_walk_product(x as nat, ps);
    }
}

/// Against a list of primes that holds every prime factor of a positive
/// `x`, the walk leaves 1.
pub proof fn lemma_complete_list_leaves_one(x: nat, ps: Seq<u32>)
    requires
        0 < x <= u32::MAX,
        all_prime(ps),
        forall|q: u32| is_prime(q as int) && divides(q as int, x as int) ==> ps.contains(q),
    ensures
        remainder_after(x, ps) == 1,
{
    let left = remainder_after(x, ps);
    lemma_found_factors_keys(x, ps, 0);
    if left != 1 {
        lemma_least_divisor_is_prime(left as int);
        let q = least_divisor(left as int);
        lemma_divides_transitive(q, left as int, x as int);
        let small = q as u32;
        assert(ps.contains(small));
        lemma_remainder_multiplicity(x, ps, small);
    }
}

/// The factorisation is complete where the list holds every prime factor:
/// against a list of primes that holds every prime factor of a positive
/// `x`, the factor counts multiply back to `x`.
pub proof fn lemma_complete_list_multiplies_back(x: u32, ps: Seq<u32>)
    requires
        x > 0,
        all_prime(ps),
        forall|q: u32| is_prime(q as int) && divides(q as int, x as int) ==> ps.contains(q),
    ensures
        power_product(factor_counts(x, ps)) == x,
{
    lemma_complete_list_leaves_one(x as nat, ps);
    lemma_factor_counts_multiply_back(x, ps);
}

/// With every prime up to the square root of `x` in the list, at most one
/// prime factor of `x` is missing from it: what the walk leaves of `x` is 1
/// or a single prime.
pub proof fn lemma_sqrt_list_leaves_one_or_prime(x: nat, ps: Seq<u32>)
    requires
        0 < x <= u32::MAX,
        all_prime(ps),
        forall|q: u32| is_prime(q as int) && q * q <= x ==> ps.contains(q),
    ensures
        remainder_after(x, ps) == 1 || is_prime(remainder_after(x, ps) as int),
        x == remainder_after(x, ps) * power_product(found_factors(x, ps)),
{
    let left = remainder_after(x, ps);
    lemma_found_factors_keys(x, ps, 0);
    lemma_walk_product(x, ps);
    if left != 1 && !is_prime(left as int) {
        lemma_composite_has_small_prime_divisor(left as int);
        let q = least_divisor(left as int);
        lemma_divisor_bound(q, left as int);
        let small = q as u32;
        assert(small * small <= x);
        lemma_remainder_multiplicity(x, ps, small);
    }
}

/// A prime is its own factorisation, whatever primes the list holds: its
/// factor counts are the prime itself with count 1.
pub proof fn lemma_factor_counts_of_a_prime(x: u32, ps: Seq<u32>)
    requires
        is_prime(x as int),
        all_prime(ps),
    ensures
        factor_counts(x, ps) == Map::<u32, u32>::empty().insert(x, 1u32),
{
    lemma_factor_counts_of_primes(x, ps);
    let listed = listed_prime_powers(x as nat, ps);
    assert forall|p: u32| listed.contains_key(p) implies p == x by {
        let i = choose|i: int| 0 <= i < ps.len() && ps[i] == p;
        lemma_prime_divides_prime(p as int, x as int);
    }
    if ps.contains(x) {
        lemma_divides_product(x as int, 1);
        assert(listed.contains_key(x));
        assert(multiplicity(x as nat, x as nat) == 1) by {
            lemma_quotient_smaller(x as nat, x as nat);
            assert((x as nat) / (x as nat) == 1) by (nonlinear_arith)
                requires
                    x >= 2,
            ;
            assert(1nat % (x as nat) == 1) by (nonlinear_arith)
                requires
                    x >= 2,
            ;
            reveal_with_fuel(multiplicity, 2);
        }
        assert(listed =~= Map::<u32, u32>::empty().insert(x, 1u32));
    } else {
        assert(listed =~= Map::<u32, u32>::empty());
    }
}

} // verus!
