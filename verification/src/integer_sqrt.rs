//! Integer square roots, rounded down and rounded up, computed without
//! leaving the integers.

use vstd::prelude::*;

verus! {

/// `r` is the square root of `x` rounded down: the largest integer whose
/// square does not exceed `x`.
pub open spec fn is_floor_sqrt(x: int, r: int) -> bool {
    0 <= r && r * r <= x < (r + 1) * (r + 1)
}

/// `r` is the square root of `x` rounded up: the smallest natural number
/// whose square reaches `x`.
pub open spec fn is_ceil_sqrt(x: int, r: int) -> bool {
    0 <= r && x <= r * r && (r == 0 || (r - 1) * (r - 1) < x)
}

/// Squaring keeps the order of natural numbers.
pub proof fn lemma_square_monotonic(a: int, b: int)
    requires
        0 <= a <= b,
    ensures
        a * a <= b * b,
{
    assert(a * a <= b * b) by (nonlinear_arith)
        requires
            0 <= a <= b,
    ;
}

/// A natural number with the smaller square is the smaller number.
pub proof fn lemma_square_strictly_monotonic_converse(a: int, b: int)
    requires
        0 <= a,
        0 <= b,
        a * a < b * b,
    ensures
        a < b,
{
    if b <= a {
        lemma_square_monotonic(b, a);
    }
}

/// The square root rounded down is unique.
pub proof fn lemma_floor_sqrt_unique(x: int, r: int, s: int)
    requires
        is_floor_sqrt(x, r),
        is_floor_sqrt(x, s),
    ensures
        r == s,
{
    lemma_square_strictly_monotonic_converse(r, s + 1);
    lemma_square_strictly_monotonic_converse(s, r + 1);
}

/// The square root rounded up is unique.
pub proof fn lemma_ceil_sqrt_unique(x: int, r: int, s: int)
    requires
        is_ceil_sqrt(x, r),
        is_ceil_sqrt(x, s),
    ensures
        r == s,
{
    if r < s {
        lemma_square_monotonic(r, s - 1);
    }
    if s < r {
        lemma_square_monotonic(s, r - 1);
    }
}

/// The square root of `x`, rounded down.
pub fn floor_sqrt(x: u64) -> (r: u64)
    ensures
        is_floor_sqrt(x as int, r as int),
        r <= u32::MAX,
{
    let mut low: u64 = 0;
    let mut high: u64 = 0x1_0000_0000;
    assert(0x1_0000_0000 * 0x1_0000_0000 > x) by (nonlinear_arith)
        requires
            x <= u64::MAX,
    ;
    while high - low > 1
        invariant
            low < high <= 0x1_0000_0000,
            low * low <= x < high * high,
        decreases high - low,
    {
        let mid: u64 = low + (high - low) / 2;
        assert(mid * mid <= u64::MAX) by (nonlinear_arith)
            requires
                mid <= 0xffff_ffff,
        ;
        if mid * mid <= x {
            low = mid;
        } else {
            high = mid;
        }
    }
    low
}

/// The square root of `x`, rounded up.
pub fn ceil_sqrt(x: u64) -> (r: u64)
    ensures
        is_ceil_sqrt(x as int, r as int),
        r <= 0x1_0000_0000,
{
    let root: u64 = floor_sqrt(x);
    assert(root * root <= u64::MAX) by (nonlinear_arith)
        requires
            root <= 0xffff_ffff,
    ;
    if root * root == x {
        assert(root == 0 || (root - 1) * (root - 1) < x) by (nonlinear_arith)
            requires
                root * root == x,
                root >= 0,
        ;
        root
    } else {
        assert((root + 1 - 1) * (root + 1 - 1) == root * root);
        root + 1
    }
}

} // verus!
