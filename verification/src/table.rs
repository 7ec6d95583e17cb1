//! The small-prime table: every prime up to 7919, which is the thousandth
//! prime, built by verified trial division and used to discard composite
//! candidates cheaply before the expensive probabilistic tests.

use vstd::prelude::*;

verus! {

use vstd::arithmetic::div_mod::lemma_fundamental_div_mod;
use vstd::arithmetic::div_mod::lemma_div_is_ordered_by_denominator;
use vstd::arithmetic::div_mod::lemma_multiply_divide_lt;
use vstd::arithmetic::div_mod::lemma_mod_multiples_basic;
use vstd::arithmetic::div_mod::lemma_mod_self_0;
use crate::big::Big;

/// A natural number at least 2 with no smaller divisor besides 1.
pub open spec fn spec_prime(n: int) -> bool {
    n >= 2 && forall|k: int| 2 <= k < n ==> #[trigger] (n % k) != 0
}

/// The largest entry of the small-prime table; the table holds every prime
/// up to this bound, which makes it the first thousand primes.
pub const SMALL_PRIME_BOUND: u64 = 7919;

/// A divisor pairs with its cofactor: if k divides n, so does n / k.
proof fn lemma_cofactor(n: int, k: int)
    requires
        n >= 2,
        2 <= k < n,
        n % k == 0,
    ensures
        2 <= n / k,
        n % (n / k) == 0,
        n == k * (n / k),
{
    let q = n / k;
    lemma_fundamental_div_mod(n, k);
    assert(n == k * q);
    assert(q >= 1) by (nonlinear_arith)
        requires n == k * q, n >= 2, 2 <= k < n;
    assert(q >= 2) by (nonlinear_arith)
        requires n == k * q, n >= 2, 2 <= k < n, q >= 1;
    lemma_mod_multiples_basic(k, q);
    assert((k * q) % q == 0);
}

/// If no candidate divisor below d divides n and d * d exceeds n, then n is
/// prime: a divisor at or above d would pair with a cofactor below d.
proof fn lemma_no_small_divisor_prime(n: int, d: int)
    requires
        n >= 2,
        d >= 2,
        d * d > n,
        forall|k: int| 2 <= k < d ==> #[trigger] (n % k) != 0,
    ensures
        spec_prime(n),
{
    assert forall|k: int| 2 <= k < n implies #[trigger] (n % k) != 0 by {
        if n % k == 0 && k >= d {
            let q = n / k;
            lemma_cofactor(n, k);
            lemma_div_is_ordered_by_denominator(n, d, k);
            lemma_multiply_divide_lt(n, d, d);
            assert(q < d);
            assert(n % q != 0);
        }
    }
}

/// Every n at least 2 has a prime factor; when n is composite, its smallest
/// prime factor p satisfies p * p <= n.
pub proof fn lemma_prime_factor(n: int) -> (p: int)
    requires
        n >= 2,
    ensures
        spec_prime(p),
        n % p == 0,
        2 <= p <= n,
        !spec_prime(n) ==> p < n && p * p <= n,
    decreases n,
{
    if spec_prime(n) {
        lemma_mod_self_0(n);
        n
    } else {
        let d = lemma_min_divisor(n, choose|k: int| 2 <= k < n && #[trigger] (n % k) == 0);
        let q = n / d;
        lemma_cofactor(n, d);
        assert(q >= d) by {
            if q < d {
                assert(n % q != 0);
            }
        }
        assert(d * d <= d * q) by (nonlinear_arith)
            requires d >= 2, q >= d;
        assert(spec_prime(d)) by {
            assert forall|k: int| 2 <= k < d implies #[trigger] (d % k) != 0 by {
                if d % k == 0 {
                    lemma_fundamental_div_mod(d, k);
                    lemma_fundamental_div_mod(n, d);
                    let w = (d / k) * (n / d);
                    assert(n == w * k) by (nonlinear_arith)
                        requires
                            n == d * (n / d) + n % d,
                            n % d == 0,
                            d == k * (d / k) + d % k,
                            d % k == 0,
                            w == (d / k) * (n / d),
                    ;
                    lemma_mod_multiples_basic(w, k);
                    assert(n % k == 0);
                }
            }
        }
        d
    }
}

/// The smallest divisor of n at or below a known divisor c.
proof fn lemma_min_divisor(n: int, c: int) -> (d: int)
    requires
        n >= 2,
        2 <= c < n,
        n % c == 0,
    ensures
        2 <= d <= c,
        n % d == 0,
        forall|k: int| 2 <= k < d ==> #[trigger] (n % k) != 0,
    decreases c,
{
    if exists|j: int| 2 <= j < c && #[trigger] (n % j) == 0 {
        let j = choose|j: int| 2 <= j < c && #[trigger] (n % j) == 0;
        lemma_min_divisor(n, j)
    } else {
        c
    }
}

/// Whether n is prime, by trial division up to the square root.
fn is_prime_u64(n: u64) -> (r: bool)
    requires
        n <= SMALL_PRIME_BOUND,
    ensures
        r == spec_prime(n as int),
{
    if n < 2 {
        return false;
    }
    let mut d: u64 = 2;
    while d < 89 && d < n
        invariant
            2 <= d <= 89,
            d <= n,
            2 <= n <= 7919,
            forall|k: int| 2 <= k < d ==> #[trigger] ((n as int) % k) != 0,
        decreases n - d,
    {
        if n % d == 0 {
            proof {
                assert((n as int) % (d as int) == 0);
            }
            return false;
        }
        d += 1;
    }
    proof {
        if d < n {
            assert(d == 89);
            assert((d as int) * (d as int) > n as int) by (nonlinear_arith)
                requires d == 89, n <= 7919;
            lemma_no_small_divisor_prime(n as int, d as int);
        }
    }
    true
}

/// The small-prime table: every prime up to [`SMALL_PRIME_BOUND`], in
/// ascending order.
pub fn small_primes() -> (v: Vec<u64>)
    ensures
        forall|i: int| 0 <= i < v@.len() ==> spec_prime(#[trigger] v@[i] as int),
        forall|i: int| 0 <= i < v@.len() ==> 2 <= #[trigger] v@[i] <= SMALL_PRIME_BOUND,
        forall|i: int, j: int| 0 <= i < j < v@.len() ==> v@[i] < v@[j],
        forall|q: int| 2 <= q <= SMALL_PRIME_BOUND && spec_prime(q) ==> v@.contains(q as u64),
{
    let mut v: Vec<u64> = Vec::new();
    let mut n: u64 = 2;
    while n <= SMALL_PRIME_BOUND
        invariant
            2 <= n <= SMALL_PRIME_BOUND + 1,
            forall|i: int| 0 <= i < v@.len() ==> spec_prime(#[trigger] v@[i] as int),
            forall|i: int| 0 <= i < v@.len() ==> 2 <= #[trigger] v@[i] < n,
            forall|i: int, j: int| 0 <= i < j < v@.len() ==> v@[i] < v@[j],
            forall|q: int| 2 <= q < n && spec_prime(q) ==> v@.contains(q as u64),
        decreases SMALL_PRIME_BOUND + 1 - n,
    {
        let ghost old_v = v@;
        if is_prime_u64(n) {
            v.push(n);
            proof {
                assert(v@[v@.len() - 1] == n);
                assert forall|q: int| 2 <= q < n + 1 && spec_prime(q)
                    implies v@.contains(q as u64) by {
                    if q < n {
                        let i = choose|i: int| 0 <= i < old_v.len() && old_v[i] == q as u64;
                        assert(v@[i] == q as u64);
                    } else {
                        assert(v@[v@.len() - 1] == q as u64);
                    }
                }
            }
        } else {
            proof {
                assert forall|q: int| 2 <= q < n + 1 && spec_prime(q)
                    implies v@.contains(q as u64) by {
                    assert(q != n);
                }
            }
        }
        n += 1;
    }
    v
}

/// Whether any table entry strictly smaller than the candidate divides it
/// evenly. A candidate equal to a table entry is itself prime and is not
/// flagged here.
pub fn divides_any(table: &Vec<u64>, n: &Big) -> (r: bool)
    requires
        n.wf(),
        forall|i: int| 0 <= i < table@.len() ==> 2 <= #[trigger] table@[i] <= SMALL_PRIME_BOUND,
    ensures
        r == exists|i: int| 0 <= i < table@.len()
            && (#[trigger] table@[i] as nat) < n@ && n@ % (table@[i] as nat) == 0,
{
    let mut i: usize = 0;
    while i < table.len()
        invariant
            i <= table@.len(),
            n.wf(),
            forall|i: int| 0 <= i < table@.len() ==> 2 <= #[trigger] table@[i] <= SMALL_PRIME_BOUND,
            forall|j: int| 0 <= j < i ==> !((#[trigger] table@[j] as nat) < n@
                && n@ % (table@[j] as nat) == 0),
        decreases table@.len() - i,
    {
        let q = table[i];
        if n.gt_small(q) && n.rem_small(q) == 0 {
            return true;
        }
        i += 1;
    }
    false
}

/// Whether the table holds this exact value.
pub fn table_contains(table: &Vec<u64>, x: u64) -> (r: bool)
    ensures
        r == table@.contains(x),
{
    let mut i: usize = 0;
    while i < table.len()
        invariant
            i <= table@.len(),
            forall|j: int| 0 <= j < i ==> table@[j] != x,
        decreases table@.len() - i,
    {
        if table[i] == x {
            return true;
        }
        i += 1;
    }
    false
}


/// Whether any entry is zero.
pub fn has_zero(v: &Vec<u64>) -> (r: bool)
    ensures
        r == (exists|i: int| 0 <= i < v@.len() && v@[i] == 0),
{
    let mut i: usize = 0;
    while i < v.len()
        invariant
            i <= v@.len(),
            forall|j: int| 0 <= j < i ==> v@[j] != 0,
        decreases v@.len() - i,
    {
        if v[i] == 0 {
            return true;
        }
        i += 1;
    }
    false
}

} // verus!
