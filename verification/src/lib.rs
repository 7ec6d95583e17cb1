//! Generation of large, cryptographically secure prime numbers, and of
//! safe primes (primes p where (p - 1) / 2 is also prime).
//!
//! Candidates are sampled from the operating system's entropy source at an
//! exact bit length, forced odd, and then screened by trial division against
//! the small-prime table, a Fermat test to base 2, and five rounds of the
//! Miller-Rabin test; a rejected candidate is advanced by 2 and retried.

pub mod big;
pub mod arith;
pub mod table;
pub mod rng;
pub mod error;
pub mod common;
pub mod prime;
pub mod safe_prime;
