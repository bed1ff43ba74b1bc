use prime_tools::integer_sqrt::{ceil_sqrt, floor_sqrt};

#[test]
fn floor_sqrt_values() {
    assert_eq!(floor_sqrt(0), 0);
    assert_eq!(floor_sqrt(1), 1);
    assert_eq!(floor_sqrt(2), 1);
    assert_eq!(floor_sqrt(3), 1);
    assert_eq!(floor_sqrt(4), 2);
    assert_eq!(floor_sqrt(15), 3);
    assert_eq!(floor_sqrt(16), 4);
    assert_eq!(floor_sqrt(17), 4);
    assert_eq!(floor_sqrt(100_000_000_000_100), 10_000_000);
    assert_eq!(floor_sqrt(18_446_744_065_119_617_024), 4_294_967_294);
    assert_eq!(floor_sqrt(18_446_744_065_119_617_025), 4_294_967_295);
    assert_eq!(floor_sqrt(u64::MAX), 4_294_967_295);
}

#[test]
fn ceil_sqrt_values() {
    assert_eq!(ceil_sqrt(0), 0);
    assert_eq!(ceil_sqrt(1), 1);
    assert_eq!(ceil_sqrt(2), 2);
    assert_eq!(ceil_sqrt(3), 2);
    assert_eq!(ceil_sqrt(4), 2);
    assert_eq!(ceil_sqrt(5), 3);
    assert_eq!(ceil_sqrt(15), 4);
    assert_eq!(ceil_sqrt(16), 4);
    assert_eq!(ceil_sqrt(17), 5);
    assert_eq!(ceil_sqrt(18_446_744_065_119_617_025), 4_294_967_295);
    assert_eq!(ceil_sqrt(18_446_744_065_119_617_026), 4_294_967_296);
    assert_eq!(ceil_sqrt(u64::MAX), 4_294_967_296);
}

#[test]
fn square_roots_bracket_every_small_value() {
    for x in 0..5_000u64 {
        let down = floor_sqrt(x);
        let up = ceil_sqrt(x);
        assert!(down * down <= x && x < (down + 1) * (down + 1));
        assert!(up * up >= x && (up == 0 || (up - 1) * (up - 1) < x));
    }
}

#[test]
fn ceil_sqrt_is_never_below_the_floating_point_root() {
    for x in 0..5_000u64 {
        let root = (x as f64).sqrt();
        assert!(ceil_sqrt(x) as f64 >= root);
        assert!(floor_sqrt(x) as f64 <= root);
    }
}
