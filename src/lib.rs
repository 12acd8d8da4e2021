//! Textbook RSA over arbitrary-precision integers, with the AES-128 key
//! schedule helpers.
pub mod aes;
pub mod bignum;
pub mod primes;
pub mod rsa;

pub use aes::{
    add_round_key, compute_next_key, increment_rc, increment_rcon, key_schedule,
    lemma_words_round_trip, rotate_word, substitute_byte, substitute_word, u128_to_words,
    vec_to_arr, vectorize_msg, words_to_u128,
};
pub use bignum::{BigNat, BigSigned};
pub use primes::{is_prime, lemma_fermat_little, lemma_round_trip};
pub use rsa::{
    decrypt, eea, encrypt, f_test, fermat_check, gen_key, get_prime, lemma_decrypt_encrypt,
    fermat_test_with, key_from_pair, modexp, prime_candidate, RsaError, MAX_KEY_ATTEMPTS,
    MAX_PRIME_CANDIDATES, MIN_KEY_BITS, PUBLIC_EXPONENT,
};
