//! Generates cryptographically secure prime numbers.

use vstd::prelude::*;

pub use crate::common::gen_prime as from_rng;

verus! {

use vstd::arithmetic::power2::pow2;
use crate::big::Big;
use crate::common::gen_prime;
use crate::common::spec_trial_clean;
use crate::common::spec_fermat;
use crate::common::spec_mr_passed;
use crate::common::MR_ROUNDS;
use crate::table::SMALL_PRIME_BOUND;
use crate::rng::os_rng;
use crate::error::Error;

/// Constructs a new probable prime of exactly `bit_length` bits, acquiring
/// a handle to the operating system's entropy source and delegating to the
/// generation loop. The bit length must be at least 512: a smaller request
/// is rejected with `BitLength` before any entropy is drawn.
pub fn new(bit_length: usize) -> (r: Result<Big, Error>)
    ensures
        bit_length < 512 <==> r == Err::<Big, Error>(Error::BitLength(bit_length)),
        r matches Ok(p) ==> p.wf()
            && pow2((bit_length - 1) as nat) <= p@ < pow2(bit_length as nat)
            && p@ % 2 == 1
            && p@ > SMALL_PRIME_BOUND
            && spec_trial_clean(p@ as int)
            && spec_fermat(p@ as int)
            && spec_mr_passed(p@ as int, MR_ROUNDS as int),
        bit_length >= 512 ==> (r matches Err(e) ==> (e matches Error::SearchExhausted
            || e matches Error::OsRngInitialization(_))),
{
    if bit_length < 512 {
        Err(Error::BitLength(bit_length))
    } else {
        let mut rng = os_rng();
        gen_prime(bit_length, &mut rng)
    }
}

} // verus!
