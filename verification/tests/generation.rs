//! Prime generation: bit-length validation, exact bit length and oddness
//! of results, and agreement with the primality predicate.

use num_bigint::BigUint;
use pumpkin::big::Big;
use pumpkin::common::is_prime;
use pumpkin::error::Error;
use pumpkin::prime;

fn to_biguint(b: &Big) -> BigUint {
    BigUint::from_slice(&b.limbs)
}

#[test]
fn test_prime_bit_length_too_small() {
    let p = prime::new(511);
    assert_eq!(
        false,
        match p {
            Ok(_) => true,
            Err(_) => false,
        }
    );
}

#[test]
fn test_prime() {
    let p = prime::new(512);
    assert_eq!(
        true,
        match p {
            Ok(_) => true,
            Err(_) => false,
        }
    );
}

#[test]
fn test_prime_rejects_small_lengths_with_bit_length_error() {
    for bl in [0usize, 1, 128, 511] {
        match prime::new(bl) {
            Err(Error::BitLength(l)) => assert_eq!(l, bl),
            _ => panic!("a bit length below 512 must yield BitLength"),
        }
    }
}

#[test]
fn test_prime_has_exact_bit_length_and_is_odd() {
    for bl in [512u64, 1024] {
        let p = prime::new(bl as usize).unwrap();
        let v = to_biguint(&p);
        assert_eq!(v.bits(), bl);
        assert!(p.is_odd());
    }
}

#[test]
fn test_generated_primes_pass_is_prime() {
    for _ in 0..3 {
        let p = prime::new(512).unwrap();
        assert!(is_prime(&p));
    }
    let p = prime::new(1024).unwrap();
    assert!(is_prime(&p));
}

#[test]
fn test_repeated_calls_yield_distinct_primes() {
    let p = prime::new(512).unwrap();
    let q = prime::new(512).unwrap();
    assert_ne!(to_biguint(&p), to_biguint(&q));
}

#[test]
fn test_from_rng_matches_new_contract() {
    let mut rng = rand::rngs::OsRng;
    let p = prime::from_rng(768, &mut rng).unwrap();
    assert_eq!(to_biguint(&p).bits(), 768);
    assert!(is_prime(&p));
    match prime::from_rng(100, &mut rng) {
        Err(Error::BitLength(l)) => assert_eq!(l, 100),
        _ => panic!("a bit length below 512 must yield BitLength"),
    }
}
