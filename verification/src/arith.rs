//! Modular exponentiation by binary (square-and-multiply) exponentiation,
//! proved against `pow` from vstd's arithmetic library.

use vstd::prelude::*;

verus! {

use vstd::arithmetic::power::pow;
use vstd::arithmetic::power::lemma_pow0;
use vstd::arithmetic::power::lemma_pow1;
use vstd::arithmetic::power::lemma_pow_adds;
use vstd::arithmetic::power::lemma_pow_multiplies;
use vstd::arithmetic::power::lemma_pow_mod_noop;
use vstd::arithmetic::power::lemma_square_is_pow2;
use vstd::arithmetic::div_mod::lemma_mul_mod_noop_general;
use vstd::arithmetic::div_mod::lemma_mul_mod_noop_right;
use vstd::arithmetic::div_mod::lemma_small_mod;
use vstd::arithmetic::mul::lemma_mul_is_associative;
use crate::big::Big;

/// One halving step of square-and-multiply, even exponent: squaring the base
/// and halving the exponent leaves the accumulated product unchanged mod m.
proof fn lemma_step_even(r0: int, b0: int, e0: int, m: int)
    requires
        m > 0,
        r0 >= 0,
        b0 >= 0,
        e0 > 0,
        e0 % 2 == 0,
    ensures
        (r0 * pow((b0 * b0) % m, (e0 / 2) as nat)) % m == (r0 * pow(b0, e0 as nat)) % m,
{
    let k = (e0 / 2) as nat;
    lemma_square_is_pow2(b0);
    lemma_pow_multiplies(b0, 2, k);
    assert(pow(b0 * b0, k) == pow(b0, e0 as nat));
    lemma_pow_mod_noop(b0 * b0, k, m);
    lemma_mul_mod_noop_right(r0, pow((b0 * b0) % m, k), m);
    lemma_mul_mod_noop_right(r0, pow(b0 * b0, k), m);
    assert((r0 * pow((b0 * b0) % m, k)) % m == (r0 * (pow((b0 * b0) % m, k) % m)) % m);
}

/// One halving step of square-and-multiply, odd exponent: folding the base
/// into the accumulator, squaring the base and halving the exponent leaves
/// the accumulated product unchanged mod m.
proof fn lemma_step_odd(r0: int, b0: int, e0: int, m: int)
    requires
        m > 0,
        r0 >= 0,
        b0 >= 0,
        e0 > 0,
        e0 % 2 == 1,
    ensures
        (((r0 * b0) % m) * pow((b0 * b0) % m, (e0 / 2) as nat)) % m
            == (r0 * pow(b0, e0 as nat)) % m,
{
    let k = (e0 / 2) as nat;
    lemma_square_is_pow2(b0);
    lemma_pow_multiplies(b0, 2, k);
    assert(pow(b0 * b0, k) == pow(b0, (2 * k) as nat));
    lemma_pow_mod_noop(b0 * b0, k, m);
    lemma_mul_mod_noop_right((r0 * b0) % m, pow((b0 * b0) % m, k), m);
    lemma_mul_mod_noop_right((r0 * b0) % m, pow(b0 * b0, k), m);
    assert((((r0 * b0) % m) * pow((b0 * b0) % m, k)) % m
        == (((r0 * b0) % m) * pow(b0 * b0, k)) % m);
    lemma_mul_mod_noop_general(r0 * b0, pow(b0 * b0, k), m);
    assert((((r0 * b0) % m) * pow(b0 * b0, k)) % m == ((r0 * b0) * pow(b0 * b0, k)) % m);
    lemma_pow1(b0);
    lemma_pow_adds(b0, 1, (2 * k) as nat);
    assert(pow(b0, e0 as nat) == b0 * pow(b0, (2 * k) as nat));
    lemma_mul_is_associative(r0, b0, pow(b0 * b0, k));
    assert((r0 * b0) * pow(b0 * b0, k) == r0 * (b0 * pow(b0, (2 * k) as nat)));
}

/// Computes base^exponent mod modulus by binary exponentiation, squaring the
/// base and halving the exponent at each step. An exponent of zero yields 1;
/// the modulus must be greater than 1, which every call site of this library
/// guarantees.
pub fn pow_mod(base: &Big, exponent: &Big, modulus: &Big) -> (r: Big)
    requires
        exponent.wf(),
        modulus@ > 1,
    ensures
        r.wf(),
        r@ as int == pow(base@ as int, exponent@) % (modulus@ as int),
        r@ < modulus@,
{
    let mut result = Big::from_u64(1);
    let mut b = base.rem(modulus);
    let mut e = exponent.duplicate();
    proof {
        lemma_pow_mod_noop(base@ as int, exponent@, modulus@ as int);
        lemma_mul_mod_noop_right(1, pow(b@ as int, e@), modulus@ as int);
    }
    while !e.is_zero()
        invariant
            result.wf(),
            b.wf(),
            e.wf(),
            modulus@ > 1,
            result@ < modulus@,
            b@ < modulus@,
            (result@ as int * pow(b@ as int, e@)) % (modulus@ as int)
                == pow(base@ as int, exponent@) % (modulus@ as int),
        decreases e@,
    {
        let ghost r0 = result@ as int;
        let ghost b0 = b@ as int;
        let ghost e0 = e@ as int;
        let ghost m = modulus@ as int;
        if e.is_odd() {
            let t = result.mul(&b);
            result = t.rem(modulus);
            proof {
                lemma_step_odd(r0, b0, e0, m);
            }
        } else {
            proof {
                lemma_step_even(r0, b0, e0, m);
            }
        }
        let t2 = b.mul(&b);
        b = t2.rem(modulus);
        e = e.shr1();
    }
    proof {
        lemma_pow0(b@ as int);
        lemma_small_mod(result@, modulus@);
    }
    result
}

} // verus!
