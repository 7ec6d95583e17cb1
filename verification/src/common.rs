//! The primality engine: the Fermat test to base 2, the Miller-Rabin test
//! with random witnesses, and the composed primality predicate that runs
//! trial division, then Fermat, then Miller-Rabin.

use vstd::prelude::*;

verus! {

use vstd::arithmetic::power::pow;
use vstd::arithmetic::power::lemma_pow_adds;
use vstd::arithmetic::power2::pow2;
use vstd::arithmetic::power2::lemma_pow2_adds;
use vstd::arithmetic::power2::lemma_pow2_strictly_increases;
use vstd::arithmetic::power2::lemma2_to64;
use vstd::arithmetic::div_mod::lemma_mul_mod_noop_general;
use crate::big::Big;
use crate::big::lemma_limbs_val_upper;
use crate::arith::pow_mod;
use crate::table::spec_prime;
use crate::table::SMALL_PRIME_BOUND;
use crate::table::small_primes;
use crate::table::divides_any;
use crate::table::has_zero;
use crate::table::table_contains;
use crate::table::lemma_prime_factor;
use crate::rng::os_rng;
use crate::rng::try_fill;
use crate::big::lemma_bytes_le_val_upper;
use crate::error::Error;
use vstd::bits::lemma_u64_shl_is_mul;

/// The number of Miller-Rabin rounds run on each candidate.
pub const MR_ROUNDS: usize = 5;

/// n passes the Fermat test to base 2: 2^(n-1) is 1 modulo n.
pub open spec fn spec_fermat(n: int) -> bool
    recommends
        n >= 2,
{
    pow(2, (n - 1) as nat) % n == 1
}

/// The odd factor d of m = 2^s * d.
pub open spec fn odd_part(m: nat) -> nat
    decreases m,
{
    if m == 0 {
        0
    } else if m % 2 == 1 {
        m
    } else {
        odd_part(m / 2)
    }
}

/// The exponent s of the largest power of two dividing m.
pub open spec fn two_adic(m: nat) -> nat
    decreases m,
{
    if m == 0 {
        0
    } else if m % 2 == 1 {
        0
    } else {
        1 + two_adic(m / 2)
    }
}

/// A Miller-Rabin round passes for witness a: with n - 1 = 2^s * d and d
/// odd, either a^d is 1 modulo n, or a^(2^j * d) is n - 1 modulo n for
/// some j below s.
pub open spec fn spec_mr_round(n: int, a: int) -> bool
    recommends
        n >= 5,
        n % 2 == 1,
{
    let d = odd_part((n - 1) as nat);
    let s = two_adic((n - 1) as nat);
    pow(a, d) % n == 1
        || exists|j: nat| j < s && #[trigger] pow(a, (d * pow2(j)) as nat) % n == n - 1
}

/// Some sequence of `rounds` witnesses, each in [2, n - 1), passes its
/// Miller-Rabin round against n.
pub open spec fn spec_mr_passed(n: int, rounds: int) -> bool {
    exists|ws: Seq<int>|
        #![trigger ws.len()]
        ws.len() == rounds && forall|i: int|
            0 <= i < ws.len() ==> (2 <= #[trigger] ws[i] && ws[i] < n - 1 && spec_mr_round(n, ws[i]))
}

/// The deterministic facts that hold of every n the primality check
/// accepts: below the small-prime bound, acceptance is primality itself;
/// above it, no small prime divides n, the Fermat test passes, and some
/// five-witness Miller-Rabin run accepts n.
pub open spec fn spec_accepted(n: int) -> bool {
    if n <= SMALL_PRIME_BOUND {
        spec_prime(n)
    } else {
        spec_trial_clean(n) && spec_fermat(n) && spec_mr_passed(n, MR_ROUNDS as int)
    }
}

/// No prime up to the small-prime bound and below n divides n.
pub open spec fn spec_trial_clean(n: int) -> bool {
    forall|q: int|
        2 <= q <= SMALL_PRIME_BOUND && spec_prime(q) && q < n ==> #[trigger] (n % q) != 0
}

/// Evidence under which the primality check rejects n: below the
/// small-prime bound, n is composite; above it, a small prime divides n,
/// or the Fermat test fails, or some witness fails its Miller-Rabin round.
pub open spec fn spec_rejectable(n: int) -> bool {
    if n <= SMALL_PRIME_BOUND {
        !spec_prime(n)
    } else {
        !spec_trial_clean(n) || !spec_fermat(n)
            || exists|a: int| 2 <= a < n - 1 && !spec_mr_round(n, a)
    }
}

/// The Fermat test to base 2: true exactly when 2^(n-1) is 1 modulo n.
/// Necessary for primality, not sufficient; used as a cheap pre-filter.
pub fn fermat(n: &Big) -> (r: bool)
    requires
        n.wf(),
        n@ >= 2,
    ensures
        r == spec_fermat(n@ as int),
{
    let two = Big::from_u64(2);
    let one = Big::from_u64(1);
    let e = n.dec();
    let x = pow_mod(&two, &e, n);
    x.eq_val(&one)
}

/// Splits an even n1 at least 2 into 2^s * d with d odd.
fn decompose(n1: &Big) -> (r: (Big, u128))
    requires
        n1.wf(),
        n1@ >= 2,
        n1@ % 2 == 0,
    ensures
        ({
            let (d, s) = r;
            &&& d.wf()
            &&& d@ == odd_part(n1@)
            &&& s as nat == two_adic(n1@)
            &&& n1@ == d@ * pow2(s as nat)
            &&& d@ % 2 == 1
        }),
{
    let mut d = n1.duplicate();
    let limb_count: usize = n1.limbs.len();
    let mut s: u128 = 0;
    proof {
        lemma2_to64();
        assert(n1@ == d@ * pow2(0)) by (nonlinear_arith)
            requires d@ == n1@, pow2(0) == 1;
    }
    while !d.is_odd()
        invariant
            d.wf(),
            d@ >= 1,
            n1.wf(),
            n1@ >= 2,
            odd_part(n1@) == odd_part(d@),
            two_adic(n1@) == s as nat + two_adic(d@),
            n1@ == d@ * pow2(s as nat),
            limb_count == n1.limbs@.len(),
        decreases d@,
    {
        proof {
            assert(pow2(s as nat) <= n1@) by (nonlinear_arith)
                requires n1@ == d@ * pow2(s as nat), d@ >= 1, pow2(s as nat) >= 1;
            vstd::arithmetic::power2::lemma_pow2_pos(s as nat);
            lemma_limbs_val_upper(n1.limbs@);
            if s as nat >= 32 * n1.limbs@.len() {
                if s as nat > 32 * n1.limbs@.len() {
                    lemma_pow2_strictly_increases(32 * n1.limbs@.len(), s as nat);
                }
                assert(false);
            }
            assert((s as nat) < 32 * (limb_count as nat));
        }
        let half = d.shr1();
        proof {
            assert(d@ == 2 * half@ + d@ % 2);
            assert(half@ >= 1);
            lemma_pow2_adds(1, s as nat);
            lemma2_to64();
            assert(n1@ == half@ * pow2((s + 1) as nat)) by (nonlinear_arith)
                requires
                    n1@ == d@ * pow2(s as nat),
                    d@ == 2 * half@,
                    pow2((s + 1) as nat) == 2 * pow2(s as nat),
            ;
        }
        d = half;
        s = s + 1;
    }
    (d, s)
}

/// One Miller-Rabin round for a fixed witness: computes a^d mod n and the
/// successive squarings, and decides exactly the round predicate
/// [`spec_mr_round`].
fn mr_round(n: &Big, a: &Big, d: &Big, s: u128, n1: &Big) -> (r: bool)
    requires
        n.wf(),
        d.wf(),
        n1.wf(),
        n@ >= 5,
        n@ % 2 == 1,
        n1@ == (n@ - 1) as nat,
        d@ == odd_part((n@ - 1) as nat),
        s as nat == two_adic((n@ - 1) as nat),
        (n@ - 1) as nat == d@ * pow2(s as nat),
    ensures
        r == spec_mr_round(n@ as int, a@ as int),
{
    let ghost dd = d@;
    let ghost m = n@ as int;
    let one = Big::from_u64(1);
    let mut x = pow_mod(a, d, n);
    if x.eq_val(&one) {
        return true;
    }
    if x.eq_val(n1) {
        proof {
            lemma2_to64();
            assert(dd * pow2(0) == dd) by (nonlinear_arith)
                requires pow2(0) == 1;
            assert(two_adic((n@ - 1) as nat) >= 1);
            assert(pow(a@ as int, (dd * pow2(0)) as nat) % m == m - 1);
        }
        return true;
    }
    proof {
        lemma2_to64();
        assert(dd * pow2(0) == dd) by (nonlinear_arith)
            requires pow2(0) == 1;
        assert(s >= 1);
    }
    let mut j: u128 = 1;
    while j < s
        invariant
            x.wf(),
            n.wf(),
            n@ >= 5,
            m == n@ as int,
            1 <= j <= s,
            x@ as int == pow(a@ as int, (dd * pow2((j - 1) as nat)) as nat) % m,
            pow(a@ as int, dd) % m != 1,
            forall|jj: nat|
                jj < j ==> #[trigger] pow(a@ as int, (dd * pow2(jj)) as nat) % m != m - 1,
            dd == odd_part((n@ - 1) as nat),
            s as nat == two_adic((n@ - 1) as nat),
            n1@ == (n@ - 1) as nat,
            n1.wf(),
        decreases s - j,
    {
        let y = x.mul(&x);
        x = y.rem(n);
        proof {
            let e = (dd * pow2((j - 1) as nat)) as nat;
            lemma_mul_mod_noop_general(pow(a@ as int, e), pow(a@ as int, e), m);
            lemma_pow_adds(a@ as int, e, e);
            lemma_pow2_adds(1, (j - 1) as nat);
            lemma2_to64();
            assert(dd * pow2(j as nat) == e + e) by (nonlinear_arith)
                requires
                    pow2(j as nat) == 2 * pow2((j - 1) as nat),
                    e == dd * pow2((j - 1) as nat),
            ;
            assert(x@ as int == pow(a@ as int, (dd * pow2(j as nat)) as nat) % m);
        }
        if x.eq_val(n1) {
            proof {
                assert(pow(a@ as int, (dd * pow2(j as nat)) as nat) % m == m - 1);
            }
            return true;
        }
        proof {
            assert forall|jj: nat| jj < j + 1
                implies #[trigger] pow(a@ as int, (dd * pow2(jj)) as nat) % m != m - 1 by {
                if jj == j as nat {
                    assert(pow(a@ as int, (dd * pow2(jj)) as nat) % m == x@ as int);
                }
            }
        }
        j += 1;
    }
    proof {
        assert(!spec_mr_round(n@ as int, a@ as int));
    }
    false
}

/// Draws a random witness in [2, n - 1) for the Miller-Rabin test, given
/// n - 1: rejection-samples byte strings as wide as n - 1 from the fallible
/// byte filler and keeps the first draw that lands in the range, which is
/// then uniform over it. If the entropy source fails or keeps rejecting,
/// the fixed witness 2 is returned rather than aborting: no contract here
/// relies on the draw being random, only on its range.
fn draw_witness(n1: &Big, rng: &mut rand::rngs::OsRng) -> (r: Big)
    requires
        n1.wf(),
        n1@ >= 4,
    ensures
        r.wf(),
        2 <= r@ < n1@,
{
    let len = n1.limbs.len();
    proof {
        if n1.limbs@.len() == 0 {
            assert(n1@ == 0);
        }
    }
    if len - 1 > (usize::MAX - 4) / 4 {
        return Big::from_u64(2);
    }
    let top = n1.limbs[len - 1];
    let top_bytes: usize = if top < 0x100 {
        1
    } else if top < 0x1_0000 {
        2
    } else if top < 0x100_0000 {
        3
    } else {
        4
    };
    let nbytes = 4 * (len - 1) + top_bytes;
    let mut attempts: u32 = 0;
    while attempts < 64
        invariant
            n1.wf(),
            n1@ >= 4,
        decreases 64 - attempts,
    {
        let mut buf: Vec<u8> = vec![0u8; nbytes];
        if try_fill(rng, &mut buf).is_err() {
            return Big::from_u64(2);
        }
        let x = Big::from_bytes_le(&buf);
        if x.gt_small(1) && x.lt(n1) {
            return x;
        }
        attempts += 1;
    }
    Big::from_u64(2)
}

/// Runs `rounds` Miller-Rabin rounds against n with witnesses drawn
/// uniformly from [2, n - 1) out of the supplied entropy source. Accepts 2
/// and 3, rejects anything below 2 and larger even numbers; a rejection of
/// an odd n above 3 always exhibits a failing witness, and an acceptance
/// exhibits a full sequence of passing witnesses.
pub fn miller_rabin_from_rng(n: &Big, rounds: usize, rng: &mut rand::rngs::OsRng) -> (r: bool)
    requires
        n.wf(),
    ensures
        n@ == 2 || n@ == 3 ==> r,
        n@ < 2 ==> !r,
        n@ > 3 && n@ % 2 == 0 ==> !r,
        !r ==> n@ < 2 || (n@ > 3 && n@ % 2 == 0)
            || exists|a: int| 2 <= a < n@ - 1 && !spec_mr_round(n@ as int, a),
        r && n@ > 3 && n@ % 2 == 1 ==> spec_mr_passed(n@ as int, rounds as int),
{
    let two = Big::from_u64(2);
    let three = Big::from_u64(3);
    if n.lt(&two) {
        return false;
    }
    if n.eq_val(&two) {
        return true;
    }
    if n.eq_val(&three) {
        return true;
    }
    if !n.is_odd() {
        return false;
    }
    let n1 = n.dec();
    let (d, s) = decompose(&n1);
    let ghost mut ws: Seq<int> = Seq::empty();
    let mut k: usize = 0;
    while k < rounds
        invariant
            n.wf(),
            d.wf(),
            n1.wf(),
            n@ >= 5,
            n@ % 2 == 1,
            n1@ == (n@ - 1) as nat,
            d@ == odd_part((n@ - 1) as nat),
            s as nat == two_adic((n@ - 1) as nat),
            (n@ - 1) as nat == d@ * pow2(s as nat),
            k <= rounds,
            ws.len() == k as int,
            forall|i: int| 0 <= i < ws.len()
                ==> (2 <= #[trigger] ws[i] && ws[i] < n@ - 1 && spec_mr_round(n@ as int, ws[i])),
        decreases rounds - k,
    {
        let a = draw_witness(&n1, rng);
        if !mr_round(n, &a, &d, s, &n1) {
            proof {
                assert(2 <= a@ as int && (a@ as int) < n@ - 1 && !spec_mr_round(n@ as int, a@ as int));
            }
            return false;
        }
        proof {
            ws = ws.push(a@ as int);
        }
        k += 1;
    }
    proof {
        assert(ws.len() == rounds as int);
        assert(spec_mr_passed(n@ as int, rounds as int));
    }
    true
}

/// Runs `rounds` Miller-Rabin rounds against n, drawing witnesses from a
/// freshly acquired handle to the operating system's entropy source.
pub fn miller_rabin(n: &Big, rounds: usize) -> (r: bool)
    requires
        n.wf(),
    ensures
        n@ == 2 || n@ == 3 ==> r,
        n@ < 2 ==> !r,
        n@ > 3 && n@ % 2 == 0 ==> !r,
        !r ==> n@ < 2 || (n@ > 3 && n@ % 2 == 0)
            || exists|a: int| 2 <= a < n@ - 1 && !spec_mr_round(n@ as int, a),
        r && n@ > 3 && n@ % 2 == 1 ==> spec_mr_passed(n@ as int, rounds as int),
{
    let mut rng = os_rng();
    miller_rabin_from_rng(n, rounds, &mut rng)
}

/// The composed primality check: a value at or below the small-prime bound
/// is decided exactly by table lookup; a larger value is screened by trial
/// division, the Fermat test, and five Miller-Rabin rounds. Every accepted
/// value below the square of the small-prime bound is genuinely prime.
pub fn is_prime(n: &Big) -> (r: bool)
    requires
        n.wf(),
    ensures
        n@ <= SMALL_PRIME_BOUND ==> r == spec_prime(n@ as int),
        n@ <= SMALL_PRIME_BOUND * SMALL_PRIME_BOUND && r ==> spec_prime(n@ as int),
        r ==> spec_accepted(n@ as int),
        !r ==> spec_rejectable(n@ as int),
{
    let table = small_primes();
    let bound = Big::from_u64(SMALL_PRIME_BOUND);
    if !bound.lt(n) {
        let v = n.to_small();
        let r = table_contains(&table, v);
        proof {
            if r {
                let i = choose|i: int| 0 <= i < table@.len() && table@[i] == v;
                assert(spec_prime(table@[i] as int));
            } else {
                if spec_prime(n@ as int) {
                    assert(table@.contains(v));
                }
            }
        }
        return r;
    }
    if divides_any(&table, n) {
        proof {
            let i = choose|i: int|
                0 <= i < table@.len() && (table@[i] as nat) < n@ && n@ % (table@[i] as nat) == 0;
            let q = table@[i] as int;
            assert(spec_prime(q) && 2 <= q <= SMALL_PRIME_BOUND && q < n@ as int
                && (n@ as int) % q == 0);
            assert(!spec_trial_clean(n@ as int));
        }
        return false;
    }
    proof {
        assert forall|q: int|
            2 <= q <= SMALL_PRIME_BOUND && spec_prime(q) && q < n@ as int
            implies #[trigger] ((n@ as int) % q) != 0 by {
            assert(table@.contains(q as u64));
            let i = choose|i: int| 0 <= i < table@.len() && table@[i] == q as u64;
            assert(!((table@[i] as nat) < n@ && n@ % (table@[i] as nat) == 0));
        }
        assert(spec_trial_clean(n@ as int));
    }
    if !fermat(n) {
        return false;
    }
    let r = miller_rabin(n, MR_ROUNDS);
    proof {
        if r {
            assert(spec_prime(2));
            assert((n@ as int) % 2 != 0);
            assert(n@ % 2 == 1);
            assert(spec_mr_passed(n@ as int, MR_ROUNDS as int));
            if n@ <= SMALL_PRIME_BOUND * SMALL_PRIME_BOUND && !spec_prime(n@ as int) {
                let p = lemma_prime_factor(n@ as int);
                assert(p <= SMALL_PRIME_BOUND) by (nonlinear_arith)
                    requires
                        p * p <= n@ as int,
                        n@ as int <= SMALL_PRIME_BOUND * SMALL_PRIME_BOUND,
                        p >= 2,
                ;
                assert((n@ as int) % p != 0);
                assert(false);
            }
        } else {
            assert(n@ % 2 != 0);
        }
    }
    r
}

/// The candidate search ceiling, as a multiple of the bit length. The
/// expected number of candidates tried is a small multiple of the bit
/// length, so the ceiling is never reached in practice; it exists so that a
/// logic error cannot turn into a silent infinite loop.
pub const SEARCH_CEILING_FACTOR: u64 = 100;

/// Derives, from an empty trial-division scan over the table of all primes
/// up to the small-prime bound, that no such prime divides n.
proof fn lemma_trial_clean(t: Seq<u64>, n: nat)
    requires
        forall|i: int| 0 <= i < t.len() ==> spec_prime(#[trigger] t[i] as int),
        forall|q: int| 2 <= q <= SMALL_PRIME_BOUND && spec_prime(q) ==> t.contains(q as u64),
        n > SMALL_PRIME_BOUND,
        !(exists|i: int| 0 <= i < t.len() && (#[trigger] t[i] as nat) < n && n % (t[i] as nat) == 0),
    ensures
        spec_trial_clean(n as int),
{
    assert forall|q: int| 2 <= q <= SMALL_PRIME_BOUND && spec_prime(q) && q < n as int
        implies #[trigger] ((n as int) % q) != 0 by {
        assert(t.contains(q as u64));
        let i = choose|i: int| 0 <= i < t.len() && t[i] == q as u64;
        assert(!((t[i] as nat) < n && n % (t[i] as nat) == 0));
    }
}

/// Generates a probable prime of exactly `bit_length` bits from the
/// supplied entropy source. A bit length below 512 is rejected up front,
/// before any entropy is drawn. Otherwise the initial candidate takes
/// `bit_length` random bits with the top bit and the bottom bit forced to
/// 1, and the search advances it by 2 until trial division, the Fermat
/// test and five Miller-Rabin rounds all pass; a candidate that would
/// leave the bit length, or a search that reaches the defensive ceiling,
/// ends in `SearchExhausted` instead of looping forever.
pub fn gen_prime(bit_length: usize, rng: &mut rand::rngs::OsRng) -> (r: Result<Big, Error>)
    ensures
        bit_length < 512 <==> r == Err::<Big, Error>(Error::BitLength(bit_length)),
        r matches Ok(p) ==> p.wf()
            && pow2((bit_length - 1) as nat) <= p@ < pow2(bit_length as nat)
            && p@ % 2 == 1
            && p@ > SMALL_PRIME_BOUND
            && spec_trial_clean(p@ as int)
            && spec_fermat(p@ as int)
            && spec_mr_passed(p@ as int, MR_ROUNDS as int),
        bit_length >= 512 ==> (r matches Err(e) ==> (e matches Error::SearchExhausted
            || e matches Error::OsRngInitialization(_))),
{
    gen_prime_filtered(bit_length, rng, false)
}

/// The candidate search behind [`gen_prime`]. With `safe_filter` set the
/// search also skips, by word-level residue checks, every candidate that
/// could not yield a safe prime: one not congruent to 2 mod 3, or one whose
/// half (p - 1) / 2 and alternate 2p + 1 are both divisible by a small
/// prime. Such base primes would fail both safe-prime constructions, so
/// skipping them changes nothing but the time spent.
pub(crate) fn gen_prime_filtered(
    bit_length: usize,
    rng: &mut rand::rngs::OsRng,
    safe_filter: bool,
) -> (r: Result<Big, Error>)
    ensures
        bit_length < 512 <==> r == Err::<Big, Error>(Error::BitLength(bit_length)),
        r matches Ok(p) ==> p.wf()
            && pow2((bit_length - 1) as nat) <= p@ < pow2(bit_length as nat)
            && p@ % 2 == 1
            && p@ > SMALL_PRIME_BOUND
            && spec_trial_clean(p@ as int)
            && spec_fermat(p@ as int)
            && spec_mr_passed(p@ as int, MR_ROUNDS as int)
            && (safe_filter ==> p@ % 3 == 2),
        bit_length >= 512 ==> (r matches Err(e) ==> (e matches Error::SearchExhausted
            || e matches Error::OsRngInitialization(_))),
{
    if bit_length < 512 {
        return Err(Error::BitLength(bit_length));
    }
    let interior_bits = bit_length - 2;
    let full_bytes = interior_bits / 8;
    let rem_bits = interior_bits % 8;
    let nbytes = if rem_bits == 0 { full_bytes } else { full_bytes + 1 };
    let mut buf: Vec<u8> = vec![0u8; nbytes];
    let filled = try_fill(rng, &mut buf);
    if let Err(e) = filled {
        return Err(Error::OsRngInitialization(e));
    }
    if rem_bits != 0 {
        proof {
            lemma2_to64();
            lemma_u64_shl_is_mul(1u64, rem_bits as u64);
        }
        let pw: u64 = 1u64 << (rem_bits as u64);
        let top = buf[nbytes - 1];
        let masked: u8 = ((top as u64) % pw) as u8;
        let _ = buf.pop();
        buf.push(masked);
        proof {
            assert(buf@.len() == nbytes);
            assert(buf@.last() as nat + 1 <= pow2(rem_bits as nat));
        }
    }
    let m = Big::from_bytes_le(&buf);
    proof {
        lemma_bytes_le_val_upper(buf@);
        lemma_pow2_adds(8 * (nbytes - 1) as nat, rem_bits as nat);
        vstd::arithmetic::power2::lemma_pow2_pos(8 * (nbytes - 1) as nat);
        if rem_bits != 0 {
            assert(m@ < pow2(8 * (nbytes - 1) as nat) * pow2(rem_bits as nat))
                by (nonlinear_arith)
                requires
                    m@ < pow2(8 * (nbytes - 1) as nat) * (buf@.last() as nat + 1),
                    buf@.last() as nat + 1 <= pow2(rem_bits as nat),
                    pow2(8 * (nbytes - 1) as nat) >= 1,
            ;
            assert(8 * (nbytes - 1) + rem_bits == interior_bits);
        } else {
            assert(8 * nbytes == interior_bits);
        }
        assert(m@ < pow2(interior_bits as nat));
    }
    let one = Big::from_u64(1);
    let top_bit = one.shl((bit_length - 1) as u64);
    let twom = m.shl(1);
    let first = top_bit.add(&twom).add_u64(1);
    let bound = one.shl(bit_length as u64);
    proof {
        lemma2_to64();
        assert(top_bit@ == pow2((bit_length - 1) as nat)) by (nonlinear_arith)
            requires top_bit@ == 1 * pow2((bit_length - 1) as nat);
        assert(bound@ == pow2(bit_length as nat)) by (nonlinear_arith)
            requires bound@ == 1 * pow2(bit_length as nat);
        assert(twom@ == 2 * m@) by (nonlinear_arith)
            requires twom@ == m@ * pow2(1), pow2(1) == 2;
        lemma_pow2_adds(1, (bit_length - 2) as nat);
        lemma_pow2_adds(1, (bit_length - 1) as nat);
        assert(pow2((bit_length - 1) as nat) == 2 * pow2((bit_length - 2) as nat));
        assert(pow2(bit_length as nat) == 2 * pow2((bit_length - 1) as nat));
        assert(first@ < pow2(bit_length as nat)) by (nonlinear_arith)
            requires
                first@ == pow2((bit_length - 1) as nat) + 2 * m@ + 1,
                m@ < pow2((bit_length - 2) as nat),
                pow2((bit_length - 1) as nat) == 2 * pow2((bit_length - 2) as nat),
                pow2(bit_length as nat) == 2 * pow2((bit_length - 1) as nat),
        ;
        assert(first@ % 2 == 1) by (nonlinear_arith)
            requires first@ == 2 * (pow2((bit_length - 2) as nat) + m@) + 1;
        lemma_pow2_strictly_increases(13, (bit_length - 1) as nat);
        assert(first@ > SMALL_PRIME_BOUND);
    }
    let table = small_primes();
    let mut candidate = first;
    // The candidate's residue modulo each table prime, kept in step with
    // the candidate across the +2 advances, so that trial division costs
    // one word operation per entry instead of a big-number division.
    let mut residues: Vec<u64> = Vec::new();
    let mut ti: usize = 0;
    while ti < table.len()
        invariant
            ti <= table@.len(),
            residues@.len() == ti,
            candidate.wf(),
            forall|i: int| 0 <= i < table@.len() ==> 2 <= #[trigger] table@[i] <= SMALL_PRIME_BOUND,
            forall|j: int| 0 <= j < ti
                ==> #[trigger] residues@[j] as nat == candidate@ % (table@[j] as nat),
        decreases table@.len() - ti,
    {
        let r = candidate.rem_small(table[ti]);
        residues.push(r);
        ti += 1;
    }
    // Residues of the half (candidate - 1) / 2 and of the alternate
    // candidate 2 * candidate + 1, kept in step the same way for the
    // safe-prime filter.
    let child0 = candidate.dec().shr1();
    let alt0 = candidate.shl(1).add_u64(1);
    proof {
        lemma2_to64();
        assert(alt0@ == 2 * candidate@ + 1) by (nonlinear_arith)
            requires alt0@ == candidate@ * pow2(1) + 1, pow2(1) == 2;
    }
    let mut child_res: Vec<u64> = Vec::new();
    let mut alt_res: Vec<u64> = Vec::new();
    let mut ci: usize = 0;
    while ci < table.len()
        invariant
            ci <= table@.len(),
            child_res@.len() == ci,
            alt_res@.len() == ci,
            child0@ == (candidate@ - 1) as nat / 2,
            alt0@ == 2 * candidate@ + 1,
            candidate@ >= 1,
            forall|i: int| 0 <= i < table@.len() ==> 2 <= #[trigger] table@[i] <= SMALL_PRIME_BOUND,
            forall|j: int| 0 <= j < ci
                ==> #[trigger] child_res@[j] as nat
                    == ((candidate@ - 1) as nat / 2) % (table@[j] as nat),
            forall|j: int| 0 <= j < ci
                ==> #[trigger] alt_res@[j] as nat == (2 * candidate@ + 1) % (table@[j] as nat),
        decreases table@.len() - ci,
    {
        child_res.push(child0.rem_small(table[ci]));
        alt_res.push(alt0.rem_small(table[ci]));
        ci += 1;
    }
    let cap: u128 = (SEARCH_CEILING_FACTOR as u128) * (bit_length as u128);
    let mut tries: u128 = 0;
    while tries < cap
        invariant
            candidate.wf(),
            bound.wf(),
            bit_length >= 512,
            pow2((bit_length - 1) as nat) <= candidate@,
            candidate@ < pow2(bit_length as nat),
            candidate@ % 2 == 1,
            candidate@ > SMALL_PRIME_BOUND,
            bound@ == pow2(bit_length as nat),
            forall|i: int| 0 <= i < table@.len() ==> spec_prime(#[trigger] table@[i] as int),
            forall|i: int| 0 <= i < table@.len() ==> 2 <= #[trigger] table@[i] <= SMALL_PRIME_BOUND,
            forall|q: int| 2 <= q <= SMALL_PRIME_BOUND && spec_prime(q)
                ==> table@.contains(q as u64),
            residues@.len() == table@.len(),
            child_res@.len() == table@.len(),
            alt_res@.len() == table@.len(),
            forall|j: int| 0 <= j < table@.len()
                ==> #[trigger] residues@[j] as nat == candidate@ % (table@[j] as nat),
            forall|j: int| 0 <= j < table@.len()
                ==> #[trigger] child_res@[j] as nat
                    == ((candidate@ - 1) as nat / 2) % (table@[j] as nat),
            forall|j: int| 0 <= j < table@.len()
                ==> #[trigger] alt_res@[j] as nat == (2 * candidate@ + 1) % (table@[j] as nat),
        decreases cap - tries,
    {
        let viable = if safe_filter {
            candidate.rem_small(3) == 2 && (!has_zero(&child_res) || !has_zero(&alt_res))
        } else {
            true
        };
        if viable && !has_zero(&residues) {
            proof {
                assert(!(exists|i: int| 0 <= i < table@.len()
                    && (#[trigger] table@[i] as nat) < candidate@
                    && candidate@ % (table@[i] as nat) == 0)) by {
                    if exists|i: int| 0 <= i < table@.len()
                        && (#[trigger] table@[i] as nat) < candidate@
                        && candidate@ % (table@[i] as nat) == 0 {
                        let i = choose|i: int| 0 <= i < table@.len()
                            && (#[trigger] table@[i] as nat) < candidate@
                            && candidate@ % (table@[i] as nat) == 0;
                        assert(residues@[i] == 0);
                    }
                }
                lemma_trial_clean(table@, candidate@);
            }
            if fermat(&candidate) {
                if miller_rabin_from_rng(&candidate, MR_ROUNDS, rng) {
                    return Ok(candidate);
                }
            }
        }
        let next = candidate.add_u64(2);
        if !next.lt(&bound) {
            return Err(Error::SearchExhausted);
        }
        proof {
            assert(next@ % 2 == 1) by (nonlinear_arith)
                requires next@ == candidate@ + 2, candidate@ % 2 == 1;
        }
        proof {
            let ch = (candidate@ - 1) as int / 2;
            vstd::arithmetic::div_mod::lemma_fundamental_div_mod(candidate@ as int - 1, 2);
            assert(candidate@ as int - 1 == 2 * ch) by {
                assert((candidate@ as int - 1) % 2 == 0) by (nonlinear_arith)
                    requires candidate@ % 2 == 1, candidate@ >= 1;
            }
            vstd::arithmetic::div_mod::lemma_fundamental_div_mod_converse_div(
                candidate@ as int + 1,
                2,
                ch + 1,
                0,
            );
            assert((next@ - 1) as nat / 2 == (candidate@ - 1) as nat / 2 + 1);
        }
        let mut ui: usize = 0;
        while ui < residues.len()
            invariant
                residues@.len() == table@.len(),
                child_res@.len() == table@.len(),
                alt_res@.len() == table@.len(),
                ui <= residues@.len(),
                next@ == candidate@ + 2,
                candidate@ >= 1,
                (next@ - 1) as nat / 2 == (candidate@ - 1) as nat / 2 + 1,
                forall|i: int| 0 <= i < table@.len()
                    ==> 2 <= #[trigger] table@[i] <= SMALL_PRIME_BOUND,
                forall|j: int| 0 <= j < ui
                    ==> #[trigger] residues@[j] as nat == next@ % (table@[j] as nat),
                forall|j: int| ui <= j < residues@.len()
                    ==> #[trigger] residues@[j] as nat == candidate@ % (table@[j] as nat),
                forall|j: int| 0 <= j < ui
                    ==> #[trigger] child_res@[j] as nat
                        == ((next@ - 1) as nat / 2) % (table@[j] as nat),
                forall|j: int| ui <= j < child_res@.len()
                    ==> #[trigger] child_res@[j] as nat
                        == ((candidate@ - 1) as nat / 2) % (table@[j] as nat),
                forall|j: int| 0 <= j < ui
                    ==> #[trigger] alt_res@[j] as nat == (2 * next@ + 1) % (table@[j] as nat),
                forall|j: int| ui <= j < alt_res@.len()
                    ==> #[trigger] alt_res@[j] as nat
                        == (2 * candidate@ + 1) % (table@[j] as nat),
            decreases residues@.len() - ui,
        {
            let q = table[ui];
            let old_r = residues[ui];
            residues[ui] = (old_r + 2) % q;
            let old_c = child_res[ui];
            child_res[ui] = (old_c + 1) % q;
            let old_a = alt_res[ui];
            alt_res[ui] = (old_a + 4) % q;
            proof {
                let qi = q as int;
                let cv = candidate@ as int;
                let ch = (candidate@ - 1) as int / 2;
                let av = 2 * cv + 1;
                vstd::arithmetic::div_mod::lemma_fundamental_div_mod(cv, qi);
                vstd::arithmetic::div_mod::lemma_mod_multiples_vanish(
                    cv / qi,
                    old_r as int + 2,
                    qi,
                );
                assert((cv + 2) % qi == (old_r as int + 2) % qi);
                vstd::arithmetic::div_mod::lemma_fundamental_div_mod(ch, qi);
                vstd::arithmetic::div_mod::lemma_mod_multiples_vanish(
                    ch / qi,
                    old_c as int + 1,
                    qi,
                );
                assert((ch + 1) % qi == (old_c as int + 1) % qi);
                vstd::arithmetic::div_mod::lemma_fundamental_div_mod(av, qi);
                vstd::arithmetic::div_mod::lemma_mod_multiples_vanish(
                    av / qi,
                    old_a as int + 4,
                    qi,
                );
                assert((av + 4) % qi == (old_a as int + 4) % qi);
                assert(2 * (next@ as int) + 1 == av + 4);
            }
            ui += 1;
        }
        candidate = next;
        tries = tries + 1;
    }
    Err(Error::SearchExhausted)
}


/// Idempotence of the predicates on their deterministic part: the Fermat
/// test, a Miller-Rabin round with a fixed witness, and — below the
/// small-prime bound — the whole primality check are each pinned by their
/// contracts to a pure function of the inputs, so any two results meeting
/// those contracts for the same inputs are the same boolean. With random
/// witnesses, a true prime is never rejected; only a composite above the
/// bound can be decided differently by different witness draws.
pub proof fn lemma_predicates_deterministic(
    n: int,
    a: int,
    f1: bool,
    f2: bool,
    r1: bool,
    r2: bool,
    p1: bool,
    p2: bool,
)
    requires
        f1 == spec_fermat(n),
        f2 == spec_fermat(n),
        r1 == spec_mr_round(n, a),
        r2 == spec_mr_round(n, a),
        p1 == spec_prime(n),
        p2 == spec_prime(n),
    ensures
        f1 == f2,
        r1 == r2,
        p1 == p2,
{
}

} // verus!
