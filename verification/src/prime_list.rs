//! The list of the primes of a range, as a mathematical sequence, and what
//! holds of it.

use crate::divisibility::is_prime;
use vstd::prelude::*;

verus! {

/// The primes `p` with `lo <= p < hi`, in increasing order.
pub open spec fn primes_in(lo: int, hi: int) -> Seq<int>
    decreases hi - lo,
{
    if hi <= lo {
        Seq::empty()
    } else if is_prime(hi - 1) {
        primes_in(lo, hi - 1).push(hi - 1)
    } else {
        primes_in(lo, hi - 1)
    }
}

/// The values of a list of `u32`, as mathematical integers.
pub open spec fn u32_values(s: Seq<u32>) -> Seq<int> {
    s.map_values(|v: u32| v as int)
}

/// The values of a list of `u64`, as mathematical integers.
pub open spec fn u64_values(s: Seq<u64>) -> Seq<int> {
    s.map_values(|v: u64| v as int)
}

/// The lower end of a range of candidates, raised to 2: no prime is smaller.
pub open spec fn effective_min(min: int) -> int {
    if min < 2 {
        2
    } else {
        min
    }
}

/// Walking up to `hi + 1` appends `hi` to the primes found so far exactly
/// when `hi` is prime.
pub proof fn lemma_primes_in_step(lo: int, hi: int)
    requires
        lo <= hi,
    ensures
        primes_in(lo, hi + 1) == if is_prime(hi) {
            primes_in(lo, hi).push(hi)
        } else {
            primes_in(lo, hi)
        },
{
}

/// Every member of `primes_in(lo, hi)` is a prime of `[lo, hi)`.
pub proof fn lemma_primes_in_members(lo: int, hi: int, i: int)
    requires
        0 <= i < primes_in(lo, hi).len(),
    ensures
        lo <= primes_in(lo, hi)[i] < hi,
        is_prime(primes_in(lo, hi)[i]),
    decreases hi - lo,
{
    if hi > lo {
        if i < primes_in(lo, hi - 1).len() {
            lemma_primes_in_members(lo, hi - 1, i);
        }
    }
}

/// Every prime of `[lo, hi)` is a member of `primes_in(lo, hi)`.
pub proof fn lemma_primes_in_complete(lo: int, hi: int, p: int)
    requires
        lo <= p < hi,
        is_prime(p),
    ensures
        primes_in(lo, hi).contains(p),
    decreases hi - lo,
{
    if p == hi - 1 {
        assert(primes_in(lo, hi).last() == p);
    } else {
        lemma_primes_in_complete(lo, hi - 1, p);
        let shorter = primes_in(lo, hi - 1);
        let i = choose|i: int| 0 <= i < shorter.len() && shorter[i] == p;
        assert(primes_in(lo, hi)[i] == p);
    }
}

/// The members of `primes_in(lo, hi)` are strictly increasing.
pub proof fn lemma_primes_in_increasing(lo: int, hi: int, i: int, j: int)
    requires
        0 <= i < j < primes_in(lo, hi).len(),
    ensures
        primes_in(lo, hi)[i] < primes_in(lo, hi)[j],
    decreases hi - lo,
{
    if hi > lo {
        let shorter = primes_in(lo, hi - 1);
        if j < shorter.len() {
            lemma_primes_in_increasing(lo, hi - 1, i, j);
        } else {
            lemma_primes_in_members(lo, hi - 1, i);
        }
    }
}

/// A list is `primes_in(lo, hi)` exactly when it is strictly increasing,
/// each of its members is a prime of `[lo, hi)`, and each prime of
/// `[lo, hi)` is a member.
pub proof fn lemma_primes_in_unique(lo: int, hi: int, list: Seq<int>)
    requires
        forall|i: int, j: int| 0 <= i < j < list.len() ==> list[i] < list[j],
        forall|i: int| 0 <= i < list.len() ==> lo <= #[trigger] list[i] < hi && is_prime(list[i]),
        forall|p: int| lo <= p < hi && is_prime(p) ==> list.contains(p),
    ensures
        list == primes_in(lo, hi),
    decreases hi - lo,
{
    if hi <= lo {
        if list.len() > 0 {
            assert(lo <= list[0] < hi);
        }
        assert(list =~= primes_in(lo, hi));
    } else if is_prime(hi - 1) {
        assert(list.contains(hi - 1));
        let at = choose|i: int| 0 <= i < list.len() && list[i] == hi - 1;
        if at < list.len() - 1 {
            assert(list[at] < list[list.len() - 1]);
            assert(list[list.len() - 1] < hi);
        }
        let front = list.drop_last();
        assert forall|p: int| lo <= p < hi - 1 && is_prime(p) implies front.contains(p) by {
            assert(list.contains(p));
            let i = choose|i: int| 0 <= i < list.len() && list[i] == p;
            assert(front[i] == p);
        }
        assert forall|i: int| 0 <= i < front.len() implies lo <= #[trigger] front[i] < hi - 1
            && is_prime(front[i]) by {
            assert(list[i] < list[list.len() - 1]);
        }
        lemma_primes_in_unique(lo, hi - 1, front);
        assert(list =~= front.push(hi - 1));
    } else {
        assert forall|p: int| lo <= p < hi - 1 && is_prime(p) implies list.contains(p) by {}
        assert forall|i: int| 0 <= i < list.len() implies lo <= #[trigger] list[i] < hi - 1
            && is_prime(list[i]) by {
            assert(lo <= list[i] < hi);
        }
        lemma_primes_in_unique(lo, hi - 1, list);
    }
}

/// Raising the lower end of a range to 2 loses no prime.
pub proof fn lemma_primes_in_from_effective_min(lo: int, hi: int)
    ensures
        primes_in(lo, hi) == primes_in(effective_min(lo), hi),
    decreases hi - lo,
{
    if hi > lo {
        lemma_primes_in_from_effective_min(lo, hi - 1);
        if hi <= 2 {
            assert(!is_prime(hi - 1));
        }
    }
}

/// The primes of a range are those of its lower part followed by those of
/// its upper part, wherever the range is cut.
pub proof fn lemma_primes_in_split(lo: int, mid: int, hi: int)
    requires
        lo <= mid <= hi,
    ensures
        primes_in(lo, hi) == primes_in(lo, mid) + primes_in(mid, hi),
    decreases hi - mid,
{
    if mid == hi {
        assert(primes_in(lo, hi) =~= primes_in(lo, mid) + primes_in(mid, hi));
    } else {
        lemma_primes_in_split(lo, mid, hi - 1);
        assert(primes_in(lo, hi) =~= primes_in(lo, mid) + primes_in(mid, hi));
    }
}

/// The offset sieve from 0 agrees with the full sieve: for every bound
/// `n`, what `get_primes_between(0, n)` returns is, member by member, what
/// `get_primes_less_than_x(n)` returns.
pub proof fn lemma_between_from_zero_is_less_than(n: u32, below: Seq<u32>, between: Seq<u64>)
    requires
        u32_values(below) == primes_in(0, n as int),
        u64_values(between) == primes_in(0u64 as int, n as u64 as int),
    ensures
        between.len() == below.len(),
        forall|i: int| 0 <= i < below.len() ==> between[i] == below[i],
{
    assert(u32_values(below).len() == u64_values(between).len());
    assert forall|i: int| 0 <= i < below.len() implies between[i] == below[i] by {
        assert(u32_values(below)[i] == u64_values(between)[i]);
    }
}

/// The sieve agrees with trial division: an integer below the bound `x` is
/// in the list that `get_primes_less_than_x(x)` returns exactly when the
/// primality test accepts it.
pub proof fn lemma_sieve_agrees_with_primality_test(
    x: u32,
    n: u32,
    sieved: Seq<u32>,
    accepted: bool,
)
    requires
        n < x,
        u32_values(sieved) == primes_in(0, x as int),
        accepted == is_prime(n as int),
    ensures
        sieved.contains(n) == accepted,
{
    let all = primes_in(0, x as int);
    if sieved.contains(n) {
        let i = choose|i: int| 0 <= i < sieved.len() && sieved[i] == n;
        assert(all[i] == u32_values(sieved)[i]);
        lemma_primes_in_members(0, x as int, i);
    }
    if is_prime(n as int) {
        lemma_primes_in_complete(0, x as int, n as int);
        let i = choose|i: int| 0 <= i < all.len() && all[i] == n as int;
        assert(u32_values(sieved)[i] == sieved[i] as int);
        assert(sieved[i] == n);
    }
}

} // verus!
