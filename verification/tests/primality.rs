use prime_tools::{is_u32_prime, is_u64_prime};

#[test]
fn u32_examples() {
    assert_eq!(is_u32_prime(982_451_653), true);
    assert_eq!(is_u32_prime(5_083), false);
    assert_eq!(is_u32_prime(1), false);
}

#[test]
fn u64_examples() {
    assert_eq!(is_u64_prime(23_423_412_349), true);
    assert_eq!(is_u64_prime(23_423_414_138), false);
    assert_eq!(is_u64_prime(1), false);
}

#[test]
fn u32_small_values() {
    let primes = [2u32, 3, 5, 7, 11, 13, 17, 19, 23, 29, 31, 37, 41, 43, 47];
    for x in 0..50u32 {
        assert_eq!(is_u32_prime(x), primes.contains(&x), "value {}", x);
    }
}

#[test]
fn u64_small_values() {
    let primes = [2u64, 3, 5, 7, 11, 13, 17, 19, 23, 29, 31, 37, 41, 43, 47];
    for x in 0..50u64 {
        assert_eq!(is_u64_prime(x), primes.contains(&x), "value {}", x);
    }
}

#[test]
fn u32_squares_of_primes_are_composite() {
    for p in [5u32, 7, 11, 13, 101, 251, 65_521] {
        assert_eq!(is_u32_prime(p * p), false, "square of {}", p);
    }
    assert_eq!(is_u32_prime(25), false);
    assert_eq!(is_u32_prime(35), false);
    assert_eq!(is_u32_prime(49), false);
}

#[test]
fn u32_largest_values() {
    assert_eq!(is_u32_prime(4_294_967_291), true);
    assert_eq!(is_u32_prime(4_294_967_295), false);
    assert_eq!(is_u32_prime(4_294_967_293), false);
    assert_eq!(is_u32_prime(4_294_836_225), false);
}

#[test]
fn u64_values_above_32_bits() {
    assert_eq!(is_u64_prime(4_294_967_311), true);
    assert_eq!(is_u64_prime(4_294_967_297), false);
    assert_eq!(is_u64_prime(1_000_000_007 * 1_000_000_009), false);
    assert_eq!(is_u64_prime(100_000_000_000_031), true);
    assert_eq!(is_u64_prime(100_000_000_000_033), false);
}

#[test]
fn u32_and_u64_agree() {
    for x in 0..20_000u32 {
        assert_eq!(is_u32_prime(x), is_u64_prime(x as u64), "value {}", x);
    }
}
