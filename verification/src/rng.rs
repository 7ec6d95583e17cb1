//! The entropy source: the operating system's cryptographically secure
//! random number generator, reached through `rand::rngs::OsRng`. Nothing is
//! assumed of the values it yields beyond their range; every consumer is
//! verified for every value the contracts admit.

use vstd::prelude::*;
use rand::Error as RandError;
use rand::RngCore;

verus! {

#[verifier::external_type_specification]
#[verifier::external_body]
pub struct ExOsRng(rand::rngs::OsRng);

#[verifier::external_type_specification]
#[verifier::external_body]
pub struct ExRandError(RandError);

/// Relies on `rand::rngs::OsRng` being a stateless unit value: a handle to
/// the operating system's entropy pool, acquired without I/O.
#[verifier::external_body]
pub fn os_rng() -> rand::rngs::OsRng {
    rand::rngs::OsRng
}

/// Relies on `rand_core::RngCore::try_fill_bytes` for `OsRng`: fills the
/// buffer from the operating system's entropy pool, leaving its length
/// unchanged, or reports the failure instead of panicking.
#[verifier::external_body]
pub fn try_fill(rng: &mut rand::rngs::OsRng, buf: &mut Vec<u8>) -> (r: Result<(), RandError>)
    ensures
        final(buf)@.len() == old(buf)@.len(),
{
    rng.try_fill_bytes(buf.as_mut_slice())
}

} // verus!
