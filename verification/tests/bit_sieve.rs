use prime_tools::bit_sieve::BitSieve;

#[test]
fn new_sieve_has_every_flag_set() {
    let sieve = BitSieve::new(70);
    assert_eq!(sieve.len(), 70);
    for i in 0..70 {
        assert!(sieve.is_set(i));
    }
}

#[test]
fn empty_sieve_has_no_flags() {
    let sieve = BitSieve::new(0);
    assert_eq!(sieve.len(), 0);
}

#[test]
fn clear_changes_one_flag_only() {
    let mut sieve = BitSieve::new(40);
    sieve.clear(33);
    assert_eq!(sieve.len(), 40);
    for i in 0..40 {
        assert_eq!(sieve.is_set(i), i != 33);
    }
}

#[test]
fn clear_is_idempotent() {
    let mut sieve = BitSieve::new(8);
    sieve.clear(0);
    sieve.clear(0);
    sieve.clear(7);
    sieve.clear(0);
    assert_eq!(sieve.len(), 8);
    assert!(!sieve.is_set(0));
    assert!(!sieve.is_set(7));
    for i in 1..7 {
        assert!(sieve.is_set(i));
    }
}

#[test]
fn sieve_from_zero_has_zero_and_one_cleared() {
    let sieve = BitSieve::from_zero(9);
    assert_eq!(sieve.len(), 10);
    assert!(!sieve.is_set(0));
    assert!(!sieve.is_set(1));
    for i in 2..10 {
        assert!(sieve.is_set(i));
    }
}

#[test]
fn sieve_from_zero_of_the_smallest_limits() {
    let sieve = BitSieve::from_zero(0);
    assert_eq!(sieve.len(), 1);
    assert!(!sieve.is_set(0));

    let sieve = BitSieve::from_zero(1);
    assert_eq!(sieve.len(), 2);
    assert!(!sieve.is_set(0));
    assert!(!sieve.is_set(1));

    let sieve = BitSieve::from_zero(2);
    assert_eq!(sieve.len(), 3);
    assert!(sieve.is_set(2));
}
