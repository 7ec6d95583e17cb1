//! Generates safe prime numbers: primes p where (p - 1) / 2 is also prime.

use vstd::prelude::*;

pub use crate::common::gen_prime;
use crate::common::gen_prime_filtered;
pub use crate::common::is_prime;

verus! {

use vstd::arithmetic::power2::pow2;
use vstd::arithmetic::power2::lemma_pow2_adds;
use vstd::arithmetic::power2::lemma_pow2_strictly_increases;
use vstd::arithmetic::power2::lemma2_to64;
use vstd::arithmetic::div_mod::lemma_fundamental_div_mod;
use vstd::arithmetic::div_mod::lemma_fundamental_div_mod_converse_div;
use vstd::arithmetic::div_mod::lemma_mod_multiples_vanish;
use crate::big::Big;
use crate::common::spec_accepted;
use crate::common::spec_rejectable;
use crate::table::spec_prime;
use crate::table::SMALL_PRIME_BOUND;
use crate::rng::os_rng;
use crate::error::Error;

/// The ceiling on base primes tried per safe-prime request. The expected
/// number is a small multiple of the bit length over a hundred; the ceiling
/// exists so that a logic error cannot turn into a silent infinite loop.
pub const SAFE_SEARCH_CEILING: u64 = 65536;

/// Whether the candidate is a safe prime: a pure predicate, independent of
/// the generation loop. A safe prime is congruent to 2 mod 3, so anything
/// else is rejected before the expensive checks; then the candidate and its
/// half (p - 1) / 2 (the shift, since a prime here is odd) must both pass
/// the primality check. Below the small-prime bound the answer is exact.
pub fn is_safe_prime(candidate: &Big) -> (r: bool)
    requires
        candidate.wf(),
    ensures
        candidate@ % 3 != 2 ==> !r,
        r ==> candidate@ % 3 == 2 && spec_accepted(candidate@ as int)
            && spec_accepted((candidate@ / 2) as int),
        !r ==> candidate@ % 3 != 2 || spec_rejectable(candidate@ as int)
            || spec_rejectable((candidate@ / 2) as int),
        candidate@ <= SMALL_PRIME_BOUND ==> r == (candidate@ % 3 == 2
            && spec_prime(candidate@ as int) && spec_prime((candidate@ / 2) as int)),
{
    if candidate.rem_small(3) == 2 {
        if is_prime(candidate) {
            let half = candidate.shr1();
            return is_prime(&half);
        }
        return false;
    }
    false
}

/// Constructs a new safe prime sized from `bit_length` bits, sourced from
/// an already-acquired entropy handle. Each turn of the loop draws a base
/// prime p of exactly `bit_length` bits; if p is itself a safe prime it is
/// returned, and otherwise the alternate candidate 2p + 1 (one bit longer)
/// is returned if it is prime, doubling the chance of success per base
/// prime at the cost of one extra primality test.
pub fn from_rng(bit_length: usize, rng: &mut rand::rngs::OsRng) -> (r: Result<Big, Error>)
    ensures
        bit_length < 512 <==> r == Err::<Big, Error>(Error::BitLength(bit_length)),
        r matches Ok(p) ==> p.wf()
            && pow2((bit_length - 1) as nat) <= p@
            && p@ < pow2((bit_length + 1) as nat)
            && p@ % 2 == 1
            && p@ % 3 == 2
            && spec_accepted(p@ as int)
            && spec_accepted((p@ / 2) as int),
        bit_length >= 512 ==> (r matches Err(e) ==> (e matches Error::SearchExhausted
            || e matches Error::OsRngInitialization(_))),
{
    if bit_length < 512 {
        return Err(Error::BitLength(bit_length));
    }
    let mut attempts: u64 = 0;
    while attempts < SAFE_SEARCH_CEILING
        invariant
            bit_length >= 512,
        decreases SAFE_SEARCH_CEILING - attempts,
    {
        // The filtered search yields only base primes congruent to 2 mod 3,
        // the necessary congruence for both safe-prime constructions; and it
        // has already verified p itself, so the safe-prime predicate is
        // decided here by the primality of the half alone.
        let p = match gen_prime_filtered(bit_length, rng, true) {
            Ok(p) => p,
            Err(e) => {
                return Err(e);
            },
        };
        let half = p.shr1();
        if is_prime(&half) {
            proof {
                lemma_pow2_strictly_increases(bit_length as nat, (bit_length + 1) as nat);
            }
            return Ok(p);
        }
        let q = p.shl(1).add_u64(1);
        proof {
            lemma2_to64();
            assert(q@ == 2 * p@ + 1) by (nonlinear_arith)
                requires q@ == p@ * pow2(1) + 1, pow2(1) == 2;
        }
        if is_prime(&q) {
            proof {
                lemma_pow2_adds(1, bit_length as nat);
                lemma_pow2_adds(1, (bit_length - 1) as nat);
                lemma_pow2_strictly_increases(13, bit_length as nat);
                lemma2_to64();
                assert(q@ % 2 == 1) by (nonlinear_arith)
                    requires q@ == 2 * p@ + 1;
                lemma_fundamental_div_mod_converse_div(q@ as int, 2, p@ as int, 1);
                assert(q@ / 2 == p@);
                assert(spec_prime(3)) by {
                    assert forall|k: int| 2 <= k < 3 implies #[trigger] (3int % k) != 0 by {
                        assert(k == 2);
                    }
                }
                assert((q@ as int) % 3 != 0);
                assert((p@ as int) % 3 != 0);
                let t = (p@ as int) / 3;
                let u = (p@ as int) % 3;
                lemma_fundamental_div_mod(p@ as int, 3);
                assert(q@ as int == 3 * (2 * t) + (2 * u + 1)) by (nonlinear_arith)
                    requires q@ == 2 * p@ + 1, p@ as int == 3 * t + u;
                lemma_mod_multiples_vanish(2 * t, 2 * u + 1, 3);
                assert((q@ as int) % 3 == (2 * u + 1) % 3);
                assert(u == 2);
                assert((q@ as int) % 3 == 2);
            }
            return Ok(q);
        }
        attempts += 1;
    }
    Err(Error::SearchExhausted)
}

/// Constructs a new safe prime sized from `bit_length` bits, acquiring a
/// handle to the operating system's entropy source and delegating to
/// [`from_rng`]. A bit length below 512 is rejected with `BitLength`
/// before any entropy is drawn.
pub fn new(bit_length: usize) -> (r: Result<Big, Error>)
    ensures
        bit_length < 512 <==> r == Err::<Big, Error>(Error::BitLength(bit_length)),
        r matches Ok(p) ==> p.wf()
            && pow2((bit_length - 1) as nat) <= p@
            && p@ < pow2((bit_length + 1) as nat)
            && p@ % 2 == 1
            && p@ % 3 == 2
            && spec_accepted(p@ as int)
            && spec_accepted((p@ / 2) as int),
        bit_length >= 512 ==> (r matches Err(e) ==> (e matches Error::SearchExhausted
            || e matches Error::OsRngInitialization(_))),
{
    if bit_length < 512 {
        Err(Error::BitLength(bit_length))
    } else {
        let mut rng = os_rng();
        from_rng(bit_length, &mut rng)
    }
}

} // verus!
