//! Arbitrary-precision unsigned integers, stored as base-2^32 digits and
//! interpreted by the spec function [`limbs_val`]. The arithmetic itself is
//! done by `num_bigint::BigUint`; every call into it sits behind a trusted
//! wrapper whose contract states the exact value of the result.

use vstd::prelude::*;

verus! {

use vstd::arithmetic::power2::pow2;
use vstd::arithmetic::power2::lemma_pow2_adds;
use vstd::arithmetic::power2::lemma_pow2_pos;
use vstd::arithmetic::power2::lemma2_to64;
use vstd::arithmetic::div_mod::lemma_mul_mod_noop_left;
use vstd::arithmetic::div_mod::lemma_add_mod_noop;

/// The value of a little-endian sequence of base-2^32 digits.
pub open spec fn limbs_val(s: Seq<u32>) -> nat
    decreases s.len(),
{
    if s.len() == 0 {
        0
    } else {
        s[0] as nat + 0x1_0000_0000 * limbs_val(s.drop_first())
    }
}

/// The value of a little-endian sequence of bytes.
pub open spec fn bytes_le_val(s: Seq<u8>) -> nat
    decreases s.len(),
{
    if s.len() == 0 {
        0
    } else {
        s[0] as nat + 0x100 * bytes_le_val(s.drop_first())
    }
}

/// An arbitrary-precision unsigned integer: base-2^32 digits, least
/// significant first, with no leading zero digit.
#[derive(Debug)]
pub struct Big {
    pub limbs: Vec<u32>,
}

impl View for Big {
    type V = nat;

    open spec fn view(&self) -> nat {
        limbs_val(self.limbs@)
    }
}

impl Big {
    /// The digit sequence is canonical: no leading zero digit.
    pub open spec fn wf(&self) -> bool {
        self.limbs@.len() > 0 ==> self.limbs@.last() != 0
    }
}

/// An upper bound from the digit count: a sequence of n digits holds a value
/// below 2^(32 n).
pub proof fn lemma_limbs_val_upper(s: Seq<u32>)
    ensures
        limbs_val(s) < pow2(32 * s.len()),
    decreases s.len(),
{
    if s.len() == 0 {
        lemma2_to64();
    } else {
        let rest = s.drop_first();
        lemma_limbs_val_upper(rest);
        lemma_pow2_adds(32, 32 * rest.len());
        lemma2_to64();
        assert(s[0] as nat + 0x1_0000_0000 * limbs_val(rest)
            < 0x1_0000_0000 * (limbs_val(rest) + 1)) by (nonlinear_arith)
            requires s[0] < 0x1_0000_0000u64;
        assert(0x1_0000_0000 * (limbs_val(rest) + 1)
            <= 0x1_0000_0000 * pow2(32 * rest.len())) by (nonlinear_arith)
            requires limbs_val(rest) + 1 <= pow2(32 * rest.len());
    }
}

/// A lower bound from a nonzero leading digit: a canonical sequence of n > 0
/// digits holds a value of at least 2^(32 (n - 1)).
pub proof fn lemma_limbs_val_lower(s: Seq<u32>)
    requires
        s.len() > 0,
        s.last() != 0,
    ensures
        limbs_val(s) >= pow2(32 * (s.len() - 1) as nat),
    decreases s.len(),
{
    if s.len() == 1 {
        lemma2_to64();
    } else {
        let rest = s.drop_first();
        assert(rest.last() == s.last());
        lemma_limbs_val_lower(rest);
        lemma_pow2_adds(32, 32 * (rest.len() - 1) as nat);
        lemma2_to64();
        assert(0x1_0000_0000 * limbs_val(rest)
            >= 0x1_0000_0000 * pow2(32 * (rest.len() - 1) as nat)) by (nonlinear_arith)
            requires limbs_val(rest) >= pow2(32 * (rest.len() - 1) as nat);
    }
}

/// The parity of the value is the parity of the lowest digit.
pub proof fn lemma_limbs_parity(s: Seq<u32>)
    requires
        s.len() > 0,
    ensures
        limbs_val(s) % 2 == s[0] as nat % 2,
{
    let rest = limbs_val(s.drop_first());
    assert(limbs_val(s) == s[0] as nat + 2 * (0x8000_0000 * rest));
    assert((s[0] as nat + 2 * (0x8000_0000 * rest)) % 2 == s[0] as nat % 2) by (nonlinear_arith);
}

/// A value below 2^32 sits in at most one canonical digit.
pub proof fn lemma_limbs_small(s: Seq<u32>)
    requires
        s.len() > 0 ==> s.last() != 0,
        limbs_val(s) < 0x1_0000_0000,
    ensures
        s.len() <= 1,
        limbs_val(s) == if s.len() == 0 { 0nat } else { s[0] as nat },
{
    if s.len() > 1 {
        lemma_limbs_val_lower(s);
        lemma_pow2_adds(32, 32 * (s.len() - 2) as nat);
        lemma_pow2_pos(32 * (s.len() - 2) as nat);
        lemma2_to64();
        assert(0x1_0000_0000 * pow2(32 * (s.len() - 2) as nat) >= 0x1_0000_0000)
            by (nonlinear_arith)
            requires pow2(32 * (s.len() - 2) as nat) >= 1;
    }
    if s.len() == 1 {
        assert(s.drop_first().len() == 0);
    }
}

/// A byte sequence of n bytes holds a value below 2^(8 n); if the last byte
/// is bounded, the bound tightens accordingly.
pub proof fn lemma_bytes_le_val_upper(s: Seq<u8>)
    ensures
        bytes_le_val(s) < pow2(8 * s.len()),
        s.len() > 0 ==> bytes_le_val(s) < pow2(8 * (s.len() - 1) as nat) * (s.last() as nat + 1),
    decreases s.len(),
{
    if s.len() == 0 {
        lemma2_to64();
    } else {
        let rest = s.drop_first();
        lemma_bytes_le_val_upper(rest);
        lemma_pow2_adds(8, 8 * rest.len());
        lemma2_to64();
        assert(s[0] as nat + 0x100 * bytes_le_val(rest)
            < 0x100 * (bytes_le_val(rest) + 1)) by (nonlinear_arith)
            requires s[0] < 0x100u64;
        assert(0x100 * (bytes_le_val(rest) + 1)
            <= 0x100 * pow2(8 * rest.len())) by (nonlinear_arith)
            requires bytes_le_val(rest) + 1 <= pow2(8 * rest.len());
        if s.len() == 1 {
            assert(rest.len() == 0);
            assert(bytes_le_val(s) == s[0] as nat);
            lemma2_to64();
            assert(pow2(8 * (s.len() - 1) as nat) == 1);
            assert(bytes_le_val(s) < 1 * (s.last() as nat + 1)) by (nonlinear_arith)
                requires bytes_le_val(s) == s[0] as nat && s[0] == s.last();
        } else {
            assert(rest.last() == s.last());
            let b = s.last() as nat + 1;
            lemma_pow2_adds(8, 8 * (rest.len() - 1) as nat);
            assert(bytes_le_val(rest) + 1 <= pow2(8 * (rest.len() - 1) as nat) * b);
            assert(s[0] as nat + 0x100 * bytes_le_val(rest)
                < 0x100 * (pow2(8 * (rest.len() - 1) as nat) * b)) by (nonlinear_arith)
                requires
                    s[0] < 0x100u64,
                    bytes_le_val(rest) + 1 <= pow2(8 * (rest.len() - 1) as nat) * b,
            ;
            assert(0x100 * (pow2(8 * (rest.len() - 1) as nat) * b)
                == (0x100 * pow2(8 * (rest.len() - 1) as nat)) * b) by (nonlinear_arith);
            assert(0x100 * pow2(8 * (rest.len() - 1) as nat) == pow2(8 * (s.len() - 1) as nat));
        }
    }
}

impl Big {
    /// Relies on `num_bigint::BigUint::from::<u64>` and `to_u32_digits`:
    /// the digits are the base-2^32 representation of the value, least
    /// significant first, without a leading zero digit.
    #[verifier::external_body]
    pub fn from_u64(v: u64) -> (r: Big)
        ensures
            r@ == v as nat,
            r.wf(),
    {
        Big { limbs: num_bigint::BigUint::from(v).to_u32_digits() }
    }

    /// Relies on `num_bigint::BigUint::from_bytes_le`: the bytes are read as
    /// a little-endian integer.
    #[verifier::external_body]
    pub fn from_bytes_le(bytes: &Vec<u8>) -> (r: Big)
        ensures
            r@ == bytes_le_val(bytes@),
            r.wf(),
    {
        Big { limbs: num_bigint::BigUint::from_bytes_le(bytes).to_u32_digits() }
    }

    /// Relies on `num_bigint::BigUint`'s `Add`: the sum of the two values.
    #[verifier::external_body]
    pub fn add(&self, other: &Big) -> (r: Big)
        ensures
            r@ == self@ + other@,
            r.wf(),
    {
        let s = num_bigint::BigUint::from_slice(&self.limbs)
            + num_bigint::BigUint::from_slice(&other.limbs);
        Big { limbs: s.to_u32_digits() }
    }

    /// Relies on `num_bigint::BigUint`'s `Add<u64>`: the sum of the value
    /// and the scalar.
    #[verifier::external_body]
    pub fn add_u64(&self, v: u64) -> (r: Big)
        ensures
            r@ == self@ + v as nat,
            r.wf(),
    {
        let s = num_bigint::BigUint::from_slice(&self.limbs) + v;
        Big { limbs: s.to_u32_digits() }
    }

    /// Relies on `num_bigint::BigUint`'s `Sub<u32>`: the value decreased by
    /// one. Subtraction below zero panics in the callee, so zero is excluded.
    #[verifier::external_body]
    pub fn dec(&self) -> (r: Big)
        requires
            self@ > 0,
        ensures
            r@ == self@ - 1,
            r.wf(),
    {
        let s = num_bigint::BigUint::from_slice(&self.limbs) - 1u32;
        Big { limbs: s.to_u32_digits() }
    }

    /// Relies on `num_bigint::BigUint`'s `Mul`: the product of the two
    /// values.
    #[verifier::external_body]
    pub fn mul(&self, other: &Big) -> (r: Big)
        ensures
            r@ == self@ * other@,
            r.wf(),
    {
        let p = num_bigint::BigUint::from_slice(&self.limbs)
            * num_bigint::BigUint::from_slice(&other.limbs);
        Big { limbs: p.to_u32_digits() }
    }

    /// Relies on `num_bigint::BigUint`'s `Rem`: the remainder of the value
    /// modulo a nonzero modulus. Division by zero panics in the callee.
    #[verifier::external_body]
    pub fn rem(&self, m: &Big) -> (r: Big)
        requires
            m@ > 0,
        ensures
            r@ == self@ % m@,
            r.wf(),
    {
        let q = num_bigint::BigUint::from_slice(&self.limbs)
            % num_bigint::BigUint::from_slice(&m.limbs);
        Big { limbs: q.to_u32_digits() }
    }

    /// Relies on `num_bigint::BigUint`'s `Shr<u32>`: the value shifted right
    /// by one bit, that is, divided by two rounding down.
    #[verifier::external_body]
    pub fn shr1(&self) -> (r: Big)
        ensures
            r@ == self@ / 2,
            r.wf(),
    {
        let s = num_bigint::BigUint::from_slice(&self.limbs) >> 1u32;
        Big { limbs: s.to_u32_digits() }
    }

    /// Relies on `num_bigint::BigUint`'s `Shl<u64>`: the value shifted left
    /// by `k` bits, that is, multiplied by 2^k.
    #[verifier::external_body]
    pub fn shl(&self, k: u64) -> (r: Big)
        ensures
            r@ == self@ * pow2(k as nat),
            r.wf(),
    {
        let s = num_bigint::BigUint::from_slice(&self.limbs) << k;
        Big { limbs: s.to_u32_digits() }
    }

    /// Relies on `num_bigint::BigUint`'s `PartialOrd`: the order of the two
    /// values.
    #[verifier::external_body]
    pub fn lt(&self, other: &Big) -> (r: bool)
        ensures
            r == (self@ < other@),
    {
        num_bigint::BigUint::from_slice(&self.limbs)
            < num_bigint::BigUint::from_slice(&other.limbs)
    }

    /// Relies on `num_bigint::BigUint`'s `PartialEq`: whether the two values
    /// are equal.
    #[verifier::external_body]
    pub fn eq_val(&self, other: &Big) -> (r: bool)
        ensures
            r == (self@ == other@),
    {
        num_bigint::BigUint::from_slice(&self.limbs)
            == num_bigint::BigUint::from_slice(&other.limbs)
    }

    /// An identical copy of this number.
    pub fn duplicate(&self) -> (r: Big)
        ensures
            r.limbs@ == self.limbs@,
            r@ == self@,
            r.wf() == self.wf(),
    {
        let mut v: Vec<u32> = Vec::new();
        let mut i: usize = 0;
        while i < self.limbs.len()
            invariant
                i <= self.limbs@.len(),
                v@ == self.limbs@.take(i as int),
            decreases self.limbs@.len() - i,
        {
            v.push(self.limbs[i]);
            i += 1;
        }
        proof {
            assert(v@ =~= self.limbs@);
        }
        Big { limbs: v }
    }

    /// Whether the value is odd, read off the lowest digit.
    pub fn is_odd(&self) -> (r: bool)
        ensures
            r == (self@ % 2 == 1),
    {
        if self.limbs.len() == 0 {
            false
        } else {
            proof {
                lemma_limbs_parity(self.limbs@);
            }
            self.limbs[0] % 2 == 1
        }
    }

    /// Whether the value is zero, read off the digit count.
    pub fn is_zero(&self) -> (r: bool)
        requires
            self.wf(),
        ensures
            r == (self@ == 0),
    {
        if self.limbs.len() == 0 {
            true
        } else {
            proof {
                lemma_limbs_val_lower(self.limbs@);
                lemma_pow2_pos(32 * (self.limbs@.len() - 1) as nat);
            }
            false
        }
    }

    /// The value itself, for values that fit one digit.
    pub fn to_small(&self) -> (r: u64)
        requires
            self.wf(),
            self@ < 0x1_0000_0000,
        ensures
            r as nat == self@,
    {
        proof {
            lemma_limbs_small(self.limbs@);
        }
        if self.limbs.len() == 0 {
            0
        } else {
            self.limbs[0] as u64
        }
    }
}


/// The value of a decimal digit string, most significant digit first.
pub open spec fn dec_val(s: Seq<u8>) -> nat
    decreases s.len(),
{
    if s.len() == 0 {
        0
    } else {
        dec_val(s.drop_last()) * 10 + (s.last() - 0x30) as nat
    }
}

impl Big {
    /// Reads a number from its decimal digits (ASCII, most significant
    /// first). Anything but a nonempty all-digit string yields `None`.
    pub fn from_decimal(digits: &Vec<u8>) -> (r: Option<Big>)
        ensures
            r is Some <==> digits@.len() > 0
                && (forall|i: int| 0 <= i < digits@.len() ==> 0x30 <= #[trigger] digits@[i] <= 0x39),
            r matches Some(b) ==> b.wf() && b@ == dec_val(digits@),
    {
        if digits.len() == 0 {
            return None;
        }
        let ten = Big::from_u64(10);
        let mut acc = Big::from_u64(0);
        let mut i: usize = 0;
        while i < digits.len()
            invariant
                i <= digits@.len(),
                ten@ == 10,
                acc.wf(),
                acc@ == dec_val(digits@.take(i as int)),
                forall|j: int| 0 <= j < i ==> 0x30 <= #[trigger] digits@[j] <= 0x39,
            decreases digits@.len() - i,
        {
            let c = digits[i];
            if c < 0x30 || c > 0x39 {
                return None;
            }
            acc = acc.mul(&ten).add_u64((c - 0x30) as u64);
            proof {
                assert(digits@.take(i as int + 1).drop_last() =~= digits@.take(i as int));
                assert(digits@.take(i as int + 1).last() == digits@[i as int]);
            }
            i += 1;
        }
        proof {
            assert(digits@.take(digits@.len() as int) =~= digits@);
        }
        Some(acc)
    }
}


impl Big {
    /// The remainder of the value modulo a small nonzero divisor, folded
    /// over the digits from the most significant end in machine words.
    pub fn rem_small(&self, q: u64) -> (r: u64)
        requires
            1 <= q < 0x1_0000_0000,
        ensures
            r as nat == self@ % q as nat,
            r < q,
    {
        let ghost s = self.limbs@;
        let mut r: u64 = 0;
        let mut i: usize = self.limbs.len();
        proof {
            assert(s.subrange(i as int, s.len() as int) =~= Seq::<u32>::empty());
            assert(limbs_val(Seq::<u32>::empty()) == 0);
            assert(limbs_val(s.subrange(i as int, s.len() as int)) % q as nat == 0);
        }
        while i > 0
            invariant
                i <= s.len(),
                s == self.limbs@,
                1 <= q < 0x1_0000_0000,
                r < q,
                r as nat == limbs_val(s.subrange(i as int, s.len() as int)) % q as nat,
            decreases i,
        {
            i -= 1;
            let ghost tail1 = s.subrange(i as int + 1, s.len() as int);
            let ghost tail0 = s.subrange(i as int, s.len() as int);
            let limb = self.limbs[i];
            let acc: u64 = r * 0x1_0000_0000 + limb as u64;
            r = acc % q;
            proof {
                assert(tail0.drop_first() =~= tail1);
                assert(tail0[0] == s[i as int]);
                assert(limbs_val(tail0) == s[i as int] as nat + 0x1_0000_0000 * limbs_val(tail1));
                let v1 = limbs_val(tail1) as int;
                let qi = q as int;
                lemma_mul_mod_noop_left(v1, 0x1_0000_0000, qi);
                lemma_add_mod_noop(v1 * 0x1_0000_0000, s[i as int] as int, qi);
                lemma_add_mod_noop((v1 % qi) * 0x1_0000_0000, s[i as int] as int, qi);
                vstd::arithmetic::div_mod::lemma_mod_twice((v1 % qi) * 0x1_0000_0000, qi);
                vstd::arithmetic::div_mod::lemma_mod_twice(s[i as int] as int, qi);
                assert(((v1 % qi) * 0x1_0000_0000 + s[i as int]) % qi
                    == (v1 * 0x1_0000_0000 + s[i as int]) % qi);
                assert(acc as int == (v1 % qi) * 0x1_0000_0000 + s[i as int]);
            }
        }
        proof {
            assert(s.subrange(0, s.len() as int) =~= s);
        }
        r
    }

    /// Whether the value exceeds a one-digit bound, read off the digits.
    pub fn gt_small(&self, v: u64) -> (r: bool)
        requires
            self.wf(),
            v < 0x1_0000_0000,
        ensures
            r == (self@ > v),
    {
        if self.limbs.len() == 0 {
            false
        } else if self.limbs.len() >= 2 {
            proof {
                lemma_limbs_val_lower(self.limbs@);
                lemma_pow2_adds(32, 32 * (self.limbs@.len() - 2) as nat);
                lemma_pow2_pos(32 * (self.limbs@.len() - 2) as nat);
                lemma2_to64();
                assert(0x1_0000_0000 * pow2(32 * (self.limbs@.len() - 2) as nat)
                    >= 0x1_0000_0000) by (nonlinear_arith)
                    requires pow2(32 * (self.limbs@.len() - 2) as nat) >= 1;
            }
            true
        } else {
            proof {
                assert(self.limbs@.drop_first().len() == 0);
                assert(limbs_val(self.limbs@.drop_first()) == 0);
                assert(self@ == self.limbs@[0] as nat);
            }
            self.limbs[0] as u64 > v
        }
    }
}

} // verus!
