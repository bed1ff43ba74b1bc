//! Utilities for working with prime numbers, each with a contract that
//! Verus proves.
//!
//! - [`get_primes_less_than_x`] lists the primes below a bound with the
//!   Sieve of Eratosthenes, and [`get_primes_between`] those of a range
//!   with an offset sieve seeded by it.
//! - [`get_prime_factors_with_counts`] factorises an integer against a
//!   list of primes.
//! - [`is_u32_prime`] and [`is_u64_prime`] test one integer by trial
//!   division.
//!
//! The contracts are stated over `divisibility::is_prime`, the sequence
//! `prime_list::primes_in` and the map `factorize::factor_counts`; the
//! public proof functions beside them say what follows. The sieves keep
//! their flags in a bit vector of the `bit-vec` crate, which `bit_sieve`
//! wraps: its four calls are the only code here that is taken on trust.

pub mod bit_sieve;
pub mod divisibility;
pub mod factorize;
pub mod integer_sqrt;
pub mod multiplicity;
pub mod offset_sieve;
pub mod primality;
pub mod prime_list;
pub mod sieve;

pub use crate::factorize::get_prime_factors_with_counts;
pub use crate::offset_sieve::get_primes_between;
pub use crate::primality::{is_u32_prime, is_u64_prime};
pub use crate::sieve::{get_prime_bit_map, get_primes_less_than_x};
