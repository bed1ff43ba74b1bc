use prime_tools::factorize::candidates_are_valid;
use prime_tools::{get_prime_factors_with_counts, get_primes_less_than_x};
use std::collections::HashMap;

#[test]
fn test_prime_factors_of_120() {
    let primes = get_primes_less_than_x(12);
    let mut result = HashMap::new();
    result.insert(2, 3);
    result.insert(3, 1);
    result.insert(5, 1);

    assert_eq!(get_prime_factors_with_counts(120, &primes), result);
}

#[test]
fn test_prime_factors_of_121() {
    let primes = get_primes_less_than_x(12);
    let mut result = HashMap::new();
    result.insert(11, 2);

    assert_eq!(get_prime_factors_with_counts(121, &primes), result);
}

#[test]
fn test_prime_factors_of_11() {
    let primes = get_primes_less_than_x(4);
    let mut result = HashMap::new();
    result.insert(11, 1);

    assert_eq!(get_prime_factors_with_counts(11, &primes), result);
}

#[test]
fn test_prime_factors_of_11_more_primes() {
    let primes = get_primes_less_than_x(12);
    let mut result = HashMap::new();
    result.insert(11, 1);

    assert_eq!(get_prime_factors_with_counts(11, &primes), result);
}

#[test]
fn prime_factors_of_120_multiply_back_to_120() {
    let primes = get_primes_less_than_x(12);
    let counts = get_prime_factors_with_counts(120, &primes);
    let mut product: u64 = 1;
    for (&factor, &count) in counts.iter() {
        product *= (factor as u64).pow(count);
    }
    assert_eq!(product, 120);
}

#[test]
fn prime_factors_of_101_with_primes_below_11() {
    let primes = get_primes_less_than_x(11);
    let mut result = HashMap::new();
    result.insert(101, 1);

    assert_eq!(get_prime_factors_with_counts(101, &primes), result);
}

#[test]
fn prime_factors_of_1200() {
    let primes = get_primes_less_than_x(10_000);
    let mut result = HashMap::new();
    result.insert(2, 4);
    result.insert(3, 1);
    result.insert(5, 2);

    assert_eq!(get_prime_factors_with_counts(1200, &primes), result);
}

#[test]
fn prime_factors_of_a_power_of_two() {
    let primes = get_primes_less_than_x(3);
    let mut result = HashMap::new();
    result.insert(2, 31);

    assert_eq!(get_prime_factors_with_counts(1 << 31, &primes), result);
}

#[test]
fn prime_factors_of_the_largest_u32() {
    let primes = get_primes_less_than_x(65_538);
    let mut result = HashMap::new();
    result.insert(3, 1);
    result.insert(5, 1);
    result.insert(17, 1);
    result.insert(257, 1);
    result.insert(65_537, 1);

    assert_eq!(get_prime_factors_with_counts(u32::MAX, &primes), result);
}

#[test]
fn prime_factors_reconstruct_every_input_the_list_covers() {
    let primes = get_primes_less_than_x(2_000);
    for x in 2..2_000u32 {
        let counts = get_prime_factors_with_counts(x, &primes);
        let mut product: u64 = 1;
        for (&factor, &count) in counts.iter() {
            assert!(primes.contains(&factor));
            assert!(count >= 1);
            product *= (factor as u64).pow(count);
        }
        assert_eq!(product, x as u64);
    }
}

#[test]
fn prime_factors_with_an_empty_list() {
    let mut result = HashMap::new();
    result.insert(84, 1);

    assert_eq!(get_prime_factors_with_counts(84, &Vec::new()), result);
}

#[test]
fn prime_factors_of_zero_and_one() {
    let primes = get_primes_less_than_x(12);

    let mut result = HashMap::new();
    result.insert(0, 1);
    assert_eq!(get_prime_factors_with_counts(0, &primes), result);

    let mut result = HashMap::new();
    result.insert(1, 1);
    assert_eq!(get_prime_factors_with_counts(1, &primes), result);
}

#[test]
fn prime_factor_missing_from_the_list_is_missing_from_the_result() {
    let primes = get_primes_less_than_x(4);
    let mut result = HashMap::new();
    result.insert(2, 1);

    assert_eq!(get_prime_factors_with_counts(14, &primes), result);
}

#[test]
fn prime_factors_stop_when_one_is_left() {
    let primes = vec![2, 3, 5, 7];
    let mut result = HashMap::new();
    result.insert(2, 2);
    result.insert(3, 2);

    assert_eq!(get_prime_factors_with_counts(36, &primes), result);
}

#[test]
fn candidates_are_tried_in_list_order() {
    let candidates = vec![4, 2];
    let mut result = HashMap::new();
    result.insert(4, 1);
    result.insert(2, 1);

    assert_eq!(get_prime_factors_with_counts(8, &candidates), result);
}

#[test]
fn candidates_from_two_on_are_valid() {
    assert!(candidates_are_valid(&Vec::new()));
    assert!(candidates_are_valid(&vec![2]));
    assert!(candidates_are_valid(&vec![2, 3, 5, 4, 4_294_967_295]));
    assert!(candidates_are_valid(&get_primes_less_than_x(1_000)));
}

#[test]
fn candidates_below_two_are_not_valid() {
    assert!(!candidates_are_valid(&vec![0]));
    assert!(!candidates_are_valid(&vec![1]));
    assert!(!candidates_are_valid(&vec![2, 3, 1, 5]));
    assert!(!candidates_are_valid(&vec![2, 3, 5, 0]));
}

#[test]
fn primes_up_to_the_square_root_miss_at_most_one_factor() {
    for x in 2..3_000u32 {
        let mut bound = 1;
        while bound * bound <= x {
            bound += 1;
        }
        let primes = get_primes_less_than_x(bound);
        let counts = get_prime_factors_with_counts(x, &primes);
        let mut product: u32 = 1;
        for (&factor, &count) in counts.iter() {
            product *= factor.pow(count);
        }
        assert_eq!(x % product, 0);
        let left = x / product;
        assert!(left == 1 || get_primes_less_than_x(left + 1).contains(&left));
    }
}

#[test]
fn a_prime_is_its_own_factor_whatever_the_list() {
    for primes in [vec![], vec![2, 3], vec![2, 3, 5, 7, 11, 13], vec![13], vec![17, 13]] {
        let mut result = HashMap::new();
        result.insert(13, 1);
        assert_eq!(get_prime_factors_with_counts(13, &primes), result);
    }
}
