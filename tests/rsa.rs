use rsa_core::{
    decrypt, eea, encrypt, f_test, fermat_check, gen_key, get_prime, modexp, prime_candidate,
    fermat_test_with, key_from_pair, BigNat, BigSigned, RsaError, MIN_KEY_BITS, PUBLIC_EXPONENT,
};

fn big(v: u64) -> BigNat {
    BigNat::from_u64(v)
}

fn to_u64(b: &BigNat) -> u64 {
    b.digits.iter().rev().fold(0u64, |acc, d| (acc << 32) | *d as u64)
}

fn value_of(s: &BigSigned) -> i128 {
    let m = s.magnitude.digits.iter().rev().fold(0i128, |acc, d| acc * (1i128 << 32) + *d as i128);
    if s.negative { -m } else { m }
}

#[test]
fn test_encrypt_decrypt() {
    for _ in 0..10 {
        let (n, e, d) = gen_key(50).unwrap();
        let plaintext = get_prime(45, 2).unwrap();
        let ciphertext = encrypt(&plaintext, &e, &n);
        let decrypted = decrypt(&ciphertext, &d, &n);

        assert_eq!(plaintext, decrypted);
    }
}

#[test]
fn modexp_known_values() {
    assert_eq!(modexp(&big(2), &big(10), &big(1000)), big(24));
    assert_eq!(modexp(&big(7), &big(0), &big(13)), big(1));
    assert_eq!(modexp(&big(4), &big(13), &big(497)), big(445));
}

#[test]
fn modexp_large_operands() {
    let m = big(1_000_000_007);
    assert_eq!(modexp(&big(u64::MAX), &big(1), &m), big(u64::MAX % 1_000_000_007));
    assert_eq!(modexp(&big(3), &big(1_000_000_006), &m), big(1));
}

#[test]
fn carmichael_number_fools_fermat() {
    assert_eq!(modexp(&big(7), &big(560), &big(561)), big(1));
    assert!(fermat_check(&big(7), &big(561)));
}

#[test]
fn fermat_check_finds_witness() {
    assert!(!fermat_check(&big(2), &big(100)));
    assert!(fermat_check(&big(2), &big(97)));
}

#[test]
fn primality_ground_truth() {
    assert_eq!(f_test(&big(97), 5), Ok(true));
    assert_eq!(f_test(&big(100), 5), Ok(false));
    assert_eq!(f_test(&big(3), 5), Ok(true));
}

#[test]
fn primality_rejects_small_candidates() {
    assert_eq!(f_test(&big(2), 5), Err(RsaError::InvalidInput));
    assert_eq!(f_test(&big(0), 5), Err(RsaError::InvalidInput));
}

#[test]
fn textbook_scenario() {
    let n = big(61 * 53);
    assert_eq!(n, big(3233));
    assert_eq!(encrypt(&big(65), &big(17), &n), big(2790));
    assert_eq!(decrypt(&big(2790), &big(2753), &n), big(65));
}

#[test]
fn eea_textbook_inverse() {
    let (x, y) = eea(&big(17), &big(3120));
    let (xv, yv) = (value_of(&x), value_of(&y));
    assert_eq!(17 * xv + 3120 * yv, 1);
    assert_eq!(xv.rem_euclid(3120), 2753);
}

#[test]
fn eea_bezout_identity() {
    for (a, b, g) in [(240u64, 46u64, 2i128), (0, 5, 5), (5, 0, 5), (0, 0, 0), (12, 18, 6)] {
        let (x, y) = eea(&big(a), &big(b));
        assert_eq!(a as i128 * value_of(&x) + b as i128 * value_of(&y), g);
    }
}

#[test]
fn prime_has_exact_bit_length() {
    for _ in 0..5 {
        let p = get_prime(64, 5).unwrap();
        assert_eq!(p.digits.len(), 2);
        assert_eq!(p.digits[1] >> 31, 1);
        assert_eq!(p.digits[0] & 1, 1);
    }
}

#[test]
fn prime_of_two_bits_is_three() {
    assert_eq!(get_prime(2, 3).unwrap(), big(3));
}

#[test]
fn prime_rejects_short_length() {
    assert_eq!(get_prime(1, 3), Err(RsaError::InvalidInput));
    assert_eq!(get_prime(0, 3), Err(RsaError::InvalidInput));
}

#[test]
fn candidate_sets_top_and_low_bits() {
    assert_eq!(prime_candidate(&big(0), 8), big(129));
    assert_eq!(prime_candidate(&big(0b1000_0010), 8), big(0b1000_0011));
    assert_eq!(prime_candidate(&big(0b0101_0101), 8), big(0b1101_0101));
}

#[test]
fn key_rejects_short_size() {
    assert_eq!(gen_key(3).err(), Some(RsaError::InvalidInput));
}

#[test]
fn key_round_trip_many_plaintexts() {
    let (n, e, d) = gen_key(64).unwrap();
    assert_eq!(e, big(PUBLIC_EXPONENT));
    for m in [0u64, 1, 2, 42, 65, 123_456_789] {
        let m = big(m);
        let c = encrypt(&m, &e, &n);
        assert_eq!(decrypt(&c, &d, &n), m);
    }
}

#[test]
fn key_exponents_are_inverse() {
    let (n, e, d) = gen_key(32).unwrap();
    let (n, e, d) = (to_u64(&n), to_u64(&e), to_u64(&d));
    assert_eq!(e, PUBLIC_EXPONENT);
    assert!(d < n);
    let ed = e * d;
    for m in [2u64, 3, 1000] {
        assert_eq!(modexp(&big(m), &big(ed), &big(n)), big(m % n));
    }
}

#[test]
fn key_rejects_sizes_without_two_primes() {
    assert_eq!(gen_key(4).err(), Some(RsaError::InvalidInput));
    assert_eq!(gen_key(5).err(), Some(RsaError::InvalidInput));
    assert_eq!(MIN_KEY_BITS, 6);
    let (n, e, d) = gen_key(6).unwrap();
    let phi = match to_u64(&n) {
        25 => 16,
        35 => 24,
        49 => 36,
        other => panic!("unexpected modulus {}", other),
    };
    assert_eq!(e, big(PUBLIC_EXPONENT));
    let d = to_u64(&d);
    assert!(d < phi);
    assert_eq!((PUBLIC_EXPONENT * d) % phi, 1);
}

#[test]
fn key_from_textbook_pair() {
    let (n, e, d) = key_from_pair(&big(61), &big(53)).unwrap();
    assert_eq!(n, big(3233));
    assert_eq!(e, big(PUBLIC_EXPONENT));
    assert_eq!(d, big(2753));
}

#[test]
fn key_from_pair_refuses_non_invertible_exponent() {
    let p = big(2 * 65537 + 1);
    assert_eq!(key_from_pair(&p, &big(3)).err(), Some(RsaError::NonInvertibleExponent));
}

#[test]
fn eea_follows_euclid_recurrence() {
    let (x, y) = eea(&big(17), &big(3120));
    assert_eq!((value_of(&x), value_of(&y)), (-367, 2));
    let (x, y) = eea(&big(9), &big(0));
    assert_eq!((value_of(&x), value_of(&y)), (1, 0));
    let (x, y) = eea(&big(0), &big(0));
    assert_eq!((value_of(&x), value_of(&y)), (1, 0));
}

#[test]
fn fermat_test_with_given_bases() {
    let bases = vec![big(2), big(5), big(7)];
    assert!(fermat_test_with(&big(561), &bases));
    assert!(!fermat_test_with(&big(561), &vec![big(2), big(3)]));
    assert!(!fermat_test_with(&big(100), &vec![big(99)]));
    assert!(fermat_test_with(&big(97), &vec![]));
}

#[test]
fn primality_rejects_no_trials() {
    assert_eq!(f_test(&big(97), 0), Err(RsaError::InvalidInput));
    assert_eq!(get_prime(16, 0), Err(RsaError::InvalidInput));
}

#[test]
fn prime_of_three_bits() {
    let p = get_prime(3, 1).unwrap();
    assert!(p == big(5) || p == big(7));
}
