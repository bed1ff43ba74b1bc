//! A fixed-length bitmap of candidate flags, stored in a `bit_vec::BitVec`.
//!
//! The bit vector is code of the `bit-vec` crate and is not verified here.
//! The four private functions that call it state what that crate's source
//! shows of `from_elem`, `set`, indexing and `len`; Verus takes those four
//! contracts on trust, and proves everything else from them.

use bit_vec::BitVec;
use vstd::prelude::*;

verus! {

/// `bit_vec::BitVec`, carried as an opaque value: nothing inside it is
/// visible to the proofs.
#[verifier::external_type_specification]
#[verifier::external_body]
#[verifier::reject_recursive_types(B)]
pub struct ExBitVec<B>(BitVec<B>);

/// The flags that a `BitVec` holds, from index 0 on. What this sequence is
/// for a given vector is fixed only by the trusted contracts below.
pub uninterp spec fn bit_vec_flags(v: BitVec<u32>) -> Seq<bool>;

/// Calls `BitVec::from_elem`. Trusted: the new vector holds `len` flags,
/// each of them equal to `bit`.
#[verifier::external_body]
fn bit_vec_from_elem(len: usize, bit: bool) -> (v: BitVec<u32>)
    ensures
        bit_vec_flags(v) == Seq::new(len as nat, |i: int| bit),
{
    BitVec::from_elem(len, bit)
}

/// Calls `BitVec::set`, which panics for an index out of bounds; the
/// precondition keeps such an index out. Trusted: flag `i` becomes `x`, and
/// every other flag and the length stay as they were.
#[verifier::external_body]
fn bit_vec_set(v: &mut BitVec<u32>, i: usize, x: bool)
    requires
        i < bit_vec_flags(*old(v)).len(),
    ensures
        bit_vec_flags(*final(v)) == bit_vec_flags(*old(v)).update(i as int, x),
{
    v.set(i, x)
}

/// Reads through `BitVec`'s `Index<usize>`, which panics for an index out
/// of bounds; the precondition keeps such an index out. Trusted: the result
/// is the flag at `i`.
#[verifier::external_body]
fn bit_vec_index(v: &BitVec<u32>, i: usize) -> (b: bool)
    requires
        i < bit_vec_flags(*v).len(),
    ensures
        b == bit_vec_flags(*v)[i as int],
{
    v[i]
}

/// Calls `BitVec::len`. Trusted: the result is the number of flags.
#[verifier::external_body]
fn bit_vec_len(v: &BitVec<u32>) -> (n: usize)
    ensures
        n == bit_vec_flags(*v).len(),
{
    v.len()
}

/// A dense bitmap of candidate flags over a contiguous range of integers.
///
/// A flag that is set says that its integer has not been struck out yet.
/// Every flag starts set; a flag can be cleared and is never set again, and
/// the length is fixed when the sieve is made.
pub struct BitSieve {
    flags: BitVec<u32>,
}

impl View for BitSieve {
    type V = Seq<bool>;

    closed spec fn view(&self) -> Seq<bool> {
        bit_vec_flags(self.flags)
    }
}

impl BitSieve {
    /// A sieve of `len` flags, all of them set.
    pub fn new(len: usize) -> (sieve: BitSieve)
        ensures
            sieve@ == Seq::new(len as nat, |i: int| true),
    {
        BitSieve { flags: bit_vec_from_elem(len, true) }
    }

    /// A sieve over the integers from 0 to `limit`: one flag for each, set
    /// but for those of 0 and 1, which are never prime.
    pub fn from_zero(limit: usize) -> (sieve: BitSieve)
        requires
            limit < usize::MAX,
        ensures
            sieve@ == Seq::new((limit + 1) as nat, |i: int| i >= 2),
    {
        let mut sieve = BitSieve::new(limit + 1);
        sieve.clear(0);
        if limit >= 1 {
            sieve.clear(1);
        }
        assert(sieve@ =~= Seq::new((limit + 1) as nat, |i: int| i >= 2));
        sieve
    }

    /// The number of flags.
    pub fn len(&self) -> (n: usize)
        ensures
            n == self@.len(),
    {
        bit_vec_len(&self.flags)
    }

    /// Whether the flag at `i` is still set.
    pub fn is_set(&self, i: usize) -> (b: bool)
        requires
            i < self@.len(),
        ensures
            b == self@[i as int],
    {
        bit_vec_index(&self.flags, i)
    }

    /// Clears the flag at `i`. Clearing a cleared flag changes nothing.
    pub fn clear(&mut self, i: usize)
        requires
            i < old(self)@.len(),
        ensures
            final(self)@ == old(self)@.update(i as int, false),
            !old(self)@[i as int] ==> final(self)@ == old(self)@,
    {
        bit_vec_set(&mut self.flags, i, false);
        assert(!old(self)@[i as int] ==> self@ =~= old(self)@);
    }
}

} // verus!
