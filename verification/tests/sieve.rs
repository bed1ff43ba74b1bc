use prime_tools::get_prime_bit_map;
use prime_tools::{get_primes_between, get_primes_less_than_x, is_u32_prime};

#[test]
fn primes_less_than_11() {
    assert_eq!(get_primes_less_than_x(11), vec![2, 3, 5, 7]);
}

#[test]
fn primes_less_than_12() {
    assert_eq!(get_primes_less_than_x(12), vec![2, 3, 5, 7, 11]);
}

#[test]
fn primes_less_than_2() {
    assert_eq!(get_primes_less_than_x(1), vec![]);
}

#[test]
fn primes_less_than_3() {
    assert_eq!(get_primes_less_than_x(3), vec![2]);
}

#[test]
fn test_sieve_vs_spot_check_integration() {
    let max_val = 10_000;
    let primes_using_sieve = get_primes_less_than_x(max_val);

    let mut primes_using_primality = Vec::new();
    for val in 1..max_val {
        if is_u32_prime(val) {
            primes_using_primality.push(val);
        }
    }
    assert_eq!(primes_using_sieve.len(), primes_using_primality.len());
    assert_eq!(primes_using_sieve[0], primes_using_primality[0]);
    assert_eq!(
        primes_using_sieve[primes_using_sieve.len() - 1],
        primes_using_primality[primes_using_primality.len() - 1]
    );
}

#[test]
fn test_get_primes_between_edge_cases() {
    assert_eq!(get_primes_between(3, 8), vec![3, 5, 7]);
    assert_eq!(get_primes_between(2, 7), vec![2, 3, 5]);
    assert_eq!(get_primes_between(2, 3), vec![2]);
    assert_eq!(get_primes_between(2, 4), vec![2, 3]);
    assert_eq!(get_primes_between(2, 2), vec![]);
    assert_eq!(get_primes_between(4, 6), vec![5]);
    assert_eq!(get_primes_between(5, 6), vec![5]);
    assert_eq!(get_primes_between(1, 3), vec![2]);
    assert_eq!(get_primes_between(0, 2), vec![]);
    assert_eq!(
        get_primes_between(100_000_000_000_000, 100_000_000_000_100),
        vec![
            100000000000031,
            100000000000067,
            100000000000097,
            100000000000099
        ]
    );

    let primes_under: Vec<u64> = get_primes_less_than_x(101)
        .iter()
        .map(|&x| x as u64)
        .collect();
    assert_eq!(get_primes_between(2, 101), primes_under);

    let primes_under: Vec<u64> = get_primes_less_than_x(10)
        .iter()
        .map(|&x| x as u64)
        .collect();
    assert_eq!(get_primes_between(0, 10), primes_under);
}

#[test]
fn primes_less_than_small_bounds() {
    assert_eq!(get_primes_less_than_x(0), vec![]);
    assert_eq!(get_primes_less_than_x(2), vec![]);
    assert_eq!(get_primes_less_than_x(4), vec![2, 3]);
    assert_eq!(get_primes_less_than_x(5), vec![2, 3]);
    assert_eq!(get_primes_less_than_x(6), vec![2, 3, 5]);
}

#[test]
fn primes_less_than_around_perfect_squares() {
    assert_eq!(get_primes_less_than_x(9), vec![2, 3, 5, 7]);
    assert_eq!(get_primes_less_than_x(10), vec![2, 3, 5, 7]);
    assert_eq!(
        get_primes_less_than_x(26),
        vec![2, 3, 5, 7, 11, 13, 17, 19, 23]
    );
    assert_eq!(
        get_primes_less_than_x(50),
        vec![2, 3, 5, 7, 11, 13, 17, 19, 23, 29, 31, 37, 41, 43, 47]
    );
    let below_122 = get_primes_less_than_x(122);
    assert!(!below_122.contains(&121));
    assert!(!below_122.contains(&119));
    assert_eq!(below_122[below_122.len() - 1], 113);
    let below_170 = get_primes_less_than_x(170);
    assert!(!below_170.contains(&169));
    assert_eq!(below_170[below_170.len() - 1], 167);
}

#[test]
fn primes_less_than_counts() {
    assert_eq!(get_primes_less_than_x(100).len(), 25);
    assert_eq!(get_primes_less_than_x(1_000).len(), 168);
    assert_eq!(get_primes_less_than_x(10_000).len(), 1_229);
    assert_eq!(get_primes_less_than_x(100_000).len(), 9_592);
    assert_eq!(get_primes_less_than_x(1_000_000).len(), 78_498);
}

#[test]
fn primes_less_than_is_strictly_increasing() {
    let primes = get_primes_less_than_x(5_000);
    for pair in primes.windows(2) {
        assert!(pair[0] < pair[1]);
    }
}

#[test]
fn sieve_agrees_with_primality_test_below_10000() {
    let bound = 10_000;
    let sieved = get_primes_less_than_x(bound);
    let mut tested = Vec::new();
    for n in 0..bound {
        if is_u32_prime(n) {
            tested.push(n);
        }
    }
    assert_eq!(sieved, tested);
}

#[test]
fn prime_bit_map_flags_exactly_the_primes() {
    let sieve = get_prime_bit_map(30);
    assert_eq!(sieve.len(), 31);
    let primes = [2usize, 3, 5, 7, 11, 13, 17, 19, 23, 29];
    for k in 0..=30usize {
        assert_eq!(sieve.is_set(k), primes.contains(&k), "flag {}", k);
    }
}

#[test]
fn prime_bit_map_of_smallest_bounds() {
    let sieve = get_prime_bit_map(0);
    assert_eq!(sieve.len(), 1);
    assert!(!sieve.is_set(0));

    let sieve = get_prime_bit_map(1);
    assert_eq!(sieve.len(), 2);
    assert!(!sieve.is_set(0));
    assert!(!sieve.is_set(1));

    let sieve = get_prime_bit_map(2);
    assert_eq!(sieve.len(), 3);
    assert!(sieve.is_set(2));

    let sieve = get_prime_bit_map(4);
    assert!(sieve.is_set(3));
    assert!(!sieve.is_set(4));
}

#[test]
fn primes_between_examples() {
    assert_eq!(get_primes_between(11, 29), vec![11, 13, 17, 19, 23]);
    assert_eq!(get_primes_between(10, 30), vec![11, 13, 17, 19, 23, 29]);
    assert_eq!(get_primes_between(1, 10), vec![2, 3, 5, 7]);
    assert_eq!(
        get_primes_between(100_000_000_000, 100_000_000_200),
        vec![
            100000000003,
            100000000019,
            100000000057,
            100000000063,
            100000000069,
            100000000073,
            100000000091,
            100000000103,
            100000000129,
            100000000171,
            100000000183,
            100000000193
        ]
    );
}

#[test]
fn primes_between_empty_ranges() {
    assert_eq!(get_primes_between(0, 0), vec![]);
    assert_eq!(get_primes_between(0, 1), vec![]);
    assert_eq!(get_primes_between(1, 1), vec![]);
    assert_eq!(get_primes_between(10, 5), vec![]);
    assert_eq!(get_primes_between(7, 7), vec![]);
    assert_eq!(get_primes_between(8, 11), vec![]);
    assert_eq!(get_primes_between(24, 29), vec![]);
}

#[test]
fn primes_between_keeps_seed_primes_inside_the_range() {
    assert_eq!(get_primes_between(2, 30), vec![2, 3, 5, 7, 11, 13, 17, 19, 23, 29]);
    assert_eq!(get_primes_between(3, 10), vec![3, 5, 7]);
    assert_eq!(get_primes_between(5, 26), vec![5, 7, 11, 13, 17, 19, 23]);
    assert_eq!(get_primes_between(7, 50), vec![7, 11, 13, 17, 19, 23, 29, 31, 37, 41, 43, 47]);
}

#[test]
fn primes_between_around_perfect_squares() {
    assert_eq!(get_primes_between(24, 27), vec![]);
    assert_eq!(get_primes_between(48, 54), vec![53]);
    assert_eq!(get_primes_between(120, 128), vec![127]);
    assert_eq!(get_primes_between(9_999_999_960, 10_000_000_020), vec![9999999967, 10000000019]);
}

#[test]
fn primes_between_from_zero_equals_primes_less_than() {
    for n in 0..300u32 {
        let below: Vec<u64> = get_primes_less_than_x(n).iter().map(|&p| p as u64).collect();
        assert_eq!(get_primes_between(0, n as u64), below, "bound {}", n);
    }
    let below: Vec<u64> = get_primes_less_than_x(20_000).iter().map(|&p| p as u64).collect();
    assert_eq!(get_primes_between(0, 20_000), below);
}

#[test]
fn primes_between_agrees_with_primes_less_than_on_inner_ranges() {
    let all: Vec<u64> = get_primes_less_than_x(2_000).iter().map(|&p| p as u64).collect();
    for min in [0u64, 1, 2, 3, 4, 97, 100, 961, 1_000, 1_999] {
        for max in [0u64, 2, 3, 5, 98, 101, 962, 1_024, 2_000] {
            let expected: Vec<u64> =
                all.iter().copied().filter(|&p| min <= p && p < max).collect();
            assert_eq!(get_primes_between(min, max), expected, "range {}..{}", min, max);
        }
    }
}

#[test]
fn primes_between_of_adjacent_ranges_join_up() {
    for cut in [0u64, 2, 3, 50, 97, 98, 500, 1_000] {
        let mut joined = get_primes_between(0, cut);
        joined.extend(get_primes_between(cut, 1_000));
        assert_eq!(joined, get_primes_between(0, 1_000), "cut at {}", cut);
    }
}
