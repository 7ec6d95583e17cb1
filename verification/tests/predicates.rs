//! The primality predicates on known values: the Fermat test, the
//! Miller-Rabin test, the composed check, the small-prime table, modular
//! exponentiation, and the decimal reader.

use pumpkin::arith::pow_mod;
use pumpkin::big::Big;
use pumpkin::common::{fermat, is_prime, miller_rabin};
use pumpkin::table::small_primes;

#[test]
fn test_fermat_values() {
    // 7919 is the thousandth prime; 7920 = 2^4 * 3^2 * 5 * 11 is composite.
    assert_eq!(fermat(&Big::from_u64(7919)), true);
    assert_eq!(fermat(&Big::from_u64(7920)), false);
}

#[test]
fn test_miller_rabin_values() {
    assert_eq!(miller_rabin(&Big::from_u64(7919), 5), true);
    assert_eq!(miller_rabin(&Big::from_u64(7920), 5), false);
}

#[test]
fn test_is_prime_small_values() {
    assert!(!is_prime(&Big::from_u64(0)));
    assert!(!is_prime(&Big::from_u64(1)));
    assert!(is_prime(&Big::from_u64(2)));
    assert!(is_prime(&Big::from_u64(3)));
    assert!(!is_prime(&Big::from_u64(4)));
    assert!(is_prime(&Big::from_u64(5)));
    assert!(is_prime(&Big::from_u64(7919)));
    // 7917 = 3 * 7 * 13 * 29; 7921 = 89 * 89, just above the table bound.
    assert!(!is_prime(&Big::from_u64(7917)));
    assert!(!is_prime(&Big::from_u64(7921)));
    // 65537, a prime above the table bound, runs the full pipeline.
    assert!(is_prime(&Big::from_u64(65537)));
}

#[test]
fn test_is_prime_idempotent() {
    for v in [7919u64, 7920, 65537, 1] {
        let n = Big::from_u64(v);
        let first = is_prime(&n);
        let second = is_prime(&n);
        assert_eq!(first, second);
    }
}

#[test]
fn test_small_primes_table() {
    let t = small_primes();
    assert_eq!(t.len(), 1000);
    assert_eq!(t[0], 2);
    assert_eq!(t[1], 3);
    assert_eq!(t[999], 7919);
}

#[test]
fn test_pow_mod_values() {
    let r = pow_mod(&Big::from_u64(3), &Big::from_u64(5), &Big::from_u64(7));
    assert_eq!(r.to_small(), 5); // 3^5 = 243, 243 mod 7 = 5
    let r = pow_mod(&Big::from_u64(10), &Big::from_u64(0), &Big::from_u64(6));
    assert_eq!(r.to_small(), 1); // an exponent of zero yields 1
    let r = pow_mod(&Big::from_u64(2), &Big::from_u64(10), &Big::from_u64(2048));
    assert_eq!(r.to_small(), 1024);
}

#[test]
fn test_from_decimal() {
    let n = Big::from_decimal(&b"12345".to_vec()).unwrap();
    assert_eq!(n.to_small(), 12345);
    let n = Big::from_decimal(&b"0".to_vec()).unwrap();
    assert_eq!(n.to_small(), 0);
    assert!(Big::from_decimal(&b"12a45".to_vec()).is_none());
    assert!(Big::from_decimal(&Vec::new()).is_none());
    // A value wider than one digit string of the machine: 2^64 = 18446744073709551616.
    let n = Big::from_decimal(&b"18446744073709551616".to_vec()).unwrap();
    let v = num_bigint::BigUint::from_slice(&n.limbs);
    assert_eq!(v, num_bigint::BigUint::from(1u8) << 64u32);
}
