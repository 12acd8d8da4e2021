//! Textbook RSA: square-and-multiply exponentiation, Fermat's primality test,
//! random prime generation, the extended Euclidean algorithm and key
//! generation.
use crate::bignum::{trunc_rem, BigNat, BigSigned};
use vstd::arithmetic::div_mod::{
    lemma_div_denominator, lemma_fundamental_div_mod, lemma_fundamental_div_mod_converse,
    lemma_mul_mod_noop_left, lemma_mul_mod_noop_right, lemma_small_mod,
};
use vstd::arithmetic::mul::{
    lemma_mul_is_associative, lemma_mul_is_commutative, lemma_mul_is_distributive_add_other_way,
    lemma_mul_is_distributive_sub,
};
use vstd::arithmetic::power::{
    lemma_pow0, lemma_pow1, lemma_pow_adds, lemma_pow_mod_noop, lemma_pow_multiplies, pow,
};
use vstd::arithmetic::power2::{lemma2_to64, lemma_pow2_pos, lemma_pow2_unfold, pow2};
use vstd::prelude::*;

verus! {

/// The fixed public exponent.
pub const PUBLIC_EXPONENT: u64 = 65537;

/// How many candidates a prime search draws before it gives up.
pub const MAX_PRIME_CANDIDATES: u64 = 1_000_000;

/// The smallest key size: its halves, of three bits, admit two distinct
/// primes (5 and 7); halves of two bits admit only 3.
pub const MIN_KEY_BITS: u64 = 6;

/// How many pairs of primes key generation draws before it gives up.
pub const MAX_KEY_ATTEMPTS: u64 = 1000;

/// Why an operation could not produce its result.
#[derive(Clone, Copy, Debug, PartialEq, Eq)]
pub enum RsaError {
    /// An argument lies below the operation's domain.
    InvalidInput,
    /// A bounded random search drew its last candidate without success.
    ResourceExhausted,
    /// The public exponent has no inverse modulo the totient of the drawn
    /// primes; key generation draws again.
    NonInvertibleExponent,
    /// A signed intermediate value had no unsigned representation.
    ConversionFailure,
}

/// The greatest common divisor, by Euclid's recurrence.
pub open spec fn gcd(a: nat, b: nat) -> nat
    decreases b,
{
    if b == 0 {
        a
    } else {
        gcd(b, a % b)
    }
}

/// `base^exp mod modulus`.
pub open spec fn mod_pow(base: nat, exp: nat, modulus: nat) -> nat {
    (pow(base as int, exp) % (modulus as int)) as nat
}

/// Whether `a` proves `p` composite: `a^(p-1) mod p` is not 1.
pub open spec fn is_fermat_witness(a: nat, p: nat) -> bool {
    pow(a as int, (p - 1) as nat) % (p as int) != 1
}

proof fn lemma_square_multiply(b: int, k: nat, bit: nat, m: int)
    requires
        m > 0,
    ensures
        (((pow(b, k) % m) * (pow(b, k) % m)) * pow(b, bit)) % m == pow(b, k + k + bit) % m,
{
    let x = pow(b, k);
    lemma_pow_adds(b, k, k);
    lemma_pow_adds(b, k + k, bit);
    lemma_mul_mod_noop_left(x, x % m, m);
    lemma_mul_mod_noop_right(x, x, m);
    lemma_mul_mod_noop_left((x % m) * (x % m), pow(b, bit), m);
    lemma_mul_mod_noop_left(x * x, pow(b, bit), m);
}

proof fn lemma_halve_exponent(e: nat, i: nat)
    ensures
        e / pow2(i) == (e / pow2(i + 1)) * 2 + (e / pow2(i)) % 2,
        (e / pow2(i)) as int % 2 == 0 || (e / pow2(i)) as int % 2 == 1,
{
    lemma_pow2_pos(i);
    lemma_pow2_unfold(i + 1);
    lemma_div_denominator(e as int, pow2(i) as int, 2);
    lemma_fundamental_div_mod((e / pow2(i)) as int, 2);
}

/// `base^exp mod modulus`, by square-and-multiply over the bits of `exp`,
/// most significant first.
pub fn modexp(base: &BigNat, exp: &BigNat, modulus: &BigNat) -> (r: BigNat)
    requires
        modulus@ > 1,
    ensures
        r@ == mod_pow(base@, exp@, modulus@),
{
    let n = exp.bit_length();
    let mut acc = BigNat::from_u64(1);
    let mut i: u64 = n;
    proof {
        lemma_pow2_pos(n as nat);
        lemma_fundamental_div_mod_converse(exp@ as int, pow2(n as nat) as int, 0, exp@ as int);
        lemma_pow0(base@ as int);
        lemma_small_mod(1, modulus@);
    }
    while i > 0
        invariant
            i <= n,
            modulus@ > 1,
            acc@ == pow(base@ as int, exp@ / pow2(i as nat)) % (modulus@ as int),
        decreases i,
    {
        i = i - 1;
        let ghost k = exp@ / pow2((i + 1) as nat);
        let sq = acc.times(&acc);
        let set = exp.bit(i);
        proof {
            lemma_halve_exponent(exp@, i as nat);
        }
        if set {
            acc = sq.times(base).remainder(modulus);
            proof {
                lemma_pow1(base@ as int);
                lemma_square_multiply(base@ as int, k, 1, modulus@ as int);
            }
        } else {
            acc = sq.remainder(modulus);
            proof {
                lemma_pow0(base@ as int);
                lemma_square_multiply(base@ as int, k, 0, modulus@ as int);
            }
        }
    }
    proof {
        lemma_pow0(2);
        assert(pow2(0) == 1);
        assert(exp@ / 1 == exp@);
    }
    acc
}

/// Textbook encryption: `plain^pub_key mod modulus`.
pub fn encrypt(plain: &BigNat, pub_key: &BigNat, modulus: &BigNat) -> (r: BigNat)
    requires
        modulus@ > 1,
    ensures
        r@ == mod_pow(plain@, pub_key@, modulus@),
{
    modexp(plain, pub_key, modulus)
}

/// Textbook decryption: `cipher^priv_key mod modulus`.
pub fn decrypt(cipher: &BigNat, priv_key: &BigNat, modulus: &BigNat) -> (r: BigNat)
    requires
        modulus@ > 1,
    ensures
        r@ == mod_pow(cipher@, priv_key@, modulus@),
{
    modexp(cipher, priv_key, modulus)
}

/// Whether `a` passes Fermat's check for `p`: `a^(p-1) mod p == 1`.
pub fn fermat_check(a: &BigNat, p: &BigNat) -> (r: bool)
    requires
        p@ > 1,
    ensures
        r == !is_fermat_witness(a@, p@),
{
    let one = BigNat::from_u64(1);
    let e = p.minus(&one);
    modexp(a, &e, p).same_value(&one)
}

/// Whether some base in `[2, p)` passes Fermat's check for `p`.
pub open spec fn passes_some_fermat_check(p: nat) -> bool {
    exists|a: nat| 2 <= a < p && !#[trigger] is_fermat_witness(a, p)
}

/// Whether every base in `[2, p)` passes Fermat's check for `p`.
pub open spec fn passes_every_fermat_check(p: nat) -> bool {
    forall|a: nat| 2 <= a < p ==> !#[trigger] is_fermat_witness(a, p)
}

/// Whether every base in `[2, p)` proves `p` composite.
pub open spec fn fails_every_fermat_check(p: nat) -> bool {
    forall|a: nat| 2 <= a < p ==> #[trigger] is_fermat_witness(a, p)
}

/// Fermat's test of `p` against the given bases: `true` exactly when none
/// of them proves `p` composite. It stops at the first base that does.
pub fn fermat_test_with(p: &BigNat, witnesses: &Vec<BigNat>) -> (r: bool)
    requires
        p@ > 1,
    ensures
        r == forall|i: int|
            0 <= i < witnesses.len() ==> !is_fermat_witness(#[trigger] witnesses@[i]@, p@),
{
    let mut i: usize = 0;
    while i < witnesses.len()
        invariant
            p@ > 1,
            i <= witnesses.len(),
            forall|j: int| 0 <= j < i ==> !is_fermat_witness(#[trigger] witnesses@[j]@, p@),
        decreases witnesses.len() - i,
    {
        if !fermat_check(&witnesses[i], p) {
            return false;
        }
        i = i + 1;
    }
    true
}

/// Fermat's probabilistic primality test with `trials` random bases drawn
/// from `[2, p)`. `false` is certain: a drawn base showed `p` composite.
/// `true` means that every drawn base passed.
pub fn f_test(p: &BigNat, trials: i32) -> (r: Result<bool, RsaError>)
    ensures
        r is Err <==> p@ < 3 || trials < 1,
        r matches Err(e) ==> e == RsaError::InvalidInput,
        r == Ok::<bool, RsaError>(false) ==> exists|a: nat|
            2 <= a < p@ && #[trigger] is_fermat_witness(a, p@),
        r == Ok::<bool, RsaError>(true) ==> passes_some_fermat_check(p@),
        p@ >= 3 && trials >= 1 && fails_every_fermat_check(p@) ==> r == Ok::<bool, RsaError>(
            false,
        ),
        p@ >= 3 && trials >= 1 && passes_every_fermat_check(p@) ==> r == Ok::<bool, RsaError>(
            true,
        ),
{
    let low = BigNat::from_u64(2);
    let three = BigNat::from_u64(3);
    if p.less_than(&three) || trials < 1 {
        return Err(RsaError::InvalidInput);
    }
    let mut witnesses: Vec<BigNat> = Vec::new();
    let mut t: i32 = 0;
    while t < trials
        invariant
            p@ >= 3,
            low@ == 2,
            0 <= t <= trials,
            witnesses.len() == t,
            forall|j: int| 0 <= j < t ==> 2 <= #[trigger] witnesses@[j]@ < p@,
        decreases trials - t,
    {
        let a = BigNat::random_range(&low, p);
        witnesses.push(a);
        t = t + 1;
    }
    let passed = fermat_test_with(p, &witnesses);
    proof {
        let w0 = witnesses@[0]@;
        assert(2 <= w0 < p@);
        if passed {
            assert(!is_fermat_witness(w0, p@));
        } else {
            let i = choose|i: int|
                0 <= i < witnesses.len() && is_fermat_witness(#[trigger] witnesses@[i]@, p@);
            assert(2 <= witnesses@[i]@ < p@);
        }
    }
    Ok(passed)
}

proof fn lemma_coefficient_step(a: int, b: int, x1: int, y1: int, x2: int, y2: int, r1: int, r2: int)
    requires
        r2 > 0,
        a * x1 + b * y1 == r1,
        a * x2 + b * y2 == r2,
    ensures
        a * (x1 - x2 * (r1 / r2)) + b * (y1 - y2 * (r1 / r2)) == r1 % r2,
{
    let q = r1 / r2;
    lemma_fundamental_div_mod(r1, r2);
    lemma_mul_is_distributive_sub(a, x1, x2 * q);
    lemma_mul_is_distributive_sub(b, y1, y2 * q);
    lemma_mul_is_associative(a, x2, q);
    lemma_mul_is_associative(b, y2, q);
    lemma_mul_is_distributive_add_other_way(q, a * x2, b * y2);
    lemma_mul_is_commutative(r2, q);
}

/// The Bezout coefficients that Euclid's recurrence yields: `(1, 0)` for
/// `b == 0`, else `(y, x - (a / b) * y)` where `(x, y)` is the pair of
/// `(b, a mod b)`.
pub open spec fn bezout_pair(a: nat, b: nat) -> (int, int)
    decreases b,
{
    if b == 0 {
        (1, 0)
    } else {
        let (x, y) = bezout_pair(b, a % b);
        (y, x - (a / b) as int * y)
    }
}

/// The pair of Euclid's recurrence satisfies Bezout's identity.
pub proof fn lemma_bezout_pair(a: nat, b: nat)
    ensures
        a * bezout_pair(a, b).0 + b * bezout_pair(a, b).1 == gcd(a, b) as int,
    decreases b,
{
    if b != 0 {
        let (x, y) = bezout_pair(b, a % b);
        lemma_bezout_pair(b, a % b);
        let (ai, bi) = (a as int, b as int);
        lemma_fundamental_div_mod(ai, bi);
        assert(ai * y + bi * (x - (ai / bi) * y) == gcd(a, b) as int) by (nonlinear_arith)
            requires
                bi * x + (ai % bi) * y == gcd(a, b) as int,
                ai == bi * (ai / bi) + ai % bi,
        ;
    }
}

proof fn lemma_pair_step(
    c11: int,
    c12: int,
    c21: int,
    c22: int,
    q: int,
    x: int,
    y: int,
)
    ensures
        y * c11 + (x - q * y) * c12 == x * c12 + y * (c11 - c12 * q),
        y * c21 + (x - q * y) * c22 == x * c22 + y * (c21 - c22 * q),
{
    assert(y * c11 + (x - q * y) * c12 == x * c12 + y * (c11 - c12 * q)) by (nonlinear_arith);
    assert(y * c21 + (x - q * y) * c22 == x * c22 + y * (c21 - c22 * q)) by (nonlinear_arith);
}

/// The extended Euclidean algorithm: the Bezout coefficients `(x, y)` of
/// Euclid's recurrence, with `a*x + b*y == gcd(a, b)`.
pub fn eea(a: &BigNat, b: &BigNat) -> (r: (BigSigned, BigSigned))
    ensures
        r.0@ == bezout_pair(a@, b@).0,
        r.1@ == bezout_pair(a@, b@).1,
        a@ * r.0@ + b@ * r.1@ == gcd(a@, b@) as int,
{
    let mut r1 = a.duplicate();
    let mut r2 = b.duplicate();
    let mut c1r1 = BigSigned::from_nat(BigNat::from_u64(1));
    let mut c1r2 = BigSigned::from_nat(BigNat::from_u64(0));
    let mut c2r1 = BigSigned::from_nat(BigNat::from_u64(0));
    let mut c2r2 = BigSigned::from_nat(BigNat::from_u64(1));
    while !r2.is_zero()
        invariant
            gcd(r1@, r2@) == gcd(a@, b@),
            a@ * c1r1@ + b@ * c2r1@ == r1@ as int,
            a@ * c1r2@ + b@ * c2r2@ == r2@ as int,
            bezout_pair(a@, b@).0 == bezout_pair(r1@, r2@).0 * c1r1@ + bezout_pair(r1@, r2@).1
                * c1r2@,
            bezout_pair(a@, b@).1 == bezout_pair(r1@, r2@).0 * c2r1@ + bezout_pair(r1@, r2@).1
                * c2r2@,
        decreases r2@,
    {
        let q = BigSigned::from_nat(r1.quotient(&r2));
        let rem = r1.remainder(&r2);
        let next1 = c1r1.minus(&c1r2.times(&q));
        let next2 = c2r1.minus(&c2r2.times(&q));
        proof {
            lemma_coefficient_step(
                a@ as int, b@ as int, c1r1@, c2r1@, c1r2@, c2r2@, r1@ as int, r2@ as int);
            let (x, y) = bezout_pair(r2@, r1@ % r2@);
            lemma_pair_step(c1r1@, c1r2@, c2r1@, c2r2@, (r1@ / r2@) as int, x, y);
        }
        r1 = r2;
        r2 = rem;
        c1r1 = c1r2;
        c1r2 = next1;
        c2r1 = c2r2;
        c2r2 = next2;
    }
    proof {
        lemma_bezout_pair(a@, b@);
        assert(bezout_pair(r1@, r2@) == (1int, 0int));
        assert(1 * c1r1@ + 0 * c1r2@ == c1r1@ && 1 * c2r1@ + 0 * c2r2@ == c2r1@) by (nonlinear_arith);
    }
    (c1r1, c2r1)
}

/// The odd candidate of exactly `k` bits made from a raw random value: its
/// top bit (bit `k-1`) is set, and an even value is made odd by adding one.
pub open spec fn candidate_value(raw: nat, k: nat) -> nat {
    let top = pow2((k - 1) as nat);
    let t = if (raw / top) % 2 == 1 { raw } else { raw + top };
    if t % 2 == 0 { t + 1 } else { t }
}

/// Whether `p` has exactly `k` bits and is odd.
pub open spec fn odd_with_bits(p: nat, k: nat) -> bool {
    pow2((k - 1) as nat) <= p < pow2(k) && p % 2 == 1
}

proof fn lemma_candidate_range(raw: nat, k: nat)
    requires
        k >= 1,
        raw < pow2(k),
    ensures
        odd_with_bits(candidate_value(raw, k), k),
{
    let top = pow2((k - 1) as nat);
    lemma_pow2_pos((k - 1) as nat);
    lemma_pow2_unfold(k);
    lemma_fundamental_div_mod(raw as int, top as int);
    let q = raw / top;
    assert(q < 2) by (nonlinear_arith)
        requires raw == top * q + raw % top, raw < 2 * top, top > 0, raw % top >= 0;
    let t = if q % 2 == 1 { raw } else { raw + top };
    assert(raw as int == top * q + raw % top);
    if q == 0 {
        assert(top * q == 0) by (nonlinear_arith)
            requires q == 0;
    } else {
        assert(top * q == top) by (nonlinear_arith)
            requires q == 1;
    }
    assert(top <= t < 2 * top);
    if t % 2 == 0 {
        if k == 1 {
            lemma_pow0(2);
            assert(t == 1);
        } else {
            lemma_pow2_unfold((k - 1) as nat);
            assert(t + 1 < 2 * top);
        }
    }
}

/// Shapes a raw random value into a prime candidate of `k` bits.
pub fn prime_candidate(raw: &BigNat, k: u64) -> (r: BigNat)
    requires
        k >= 1,
    ensures
        r@ == candidate_value(raw@, k as nat),
        raw@ < pow2(k as nat) ==> odd_with_bits(r@, k as nat),
{
    let t = raw.with_bit_set(k - 1);
    let two = BigNat::from_u64(2);
    let r = if t.remainder(&two).is_zero() {
        t.plus(&BigNat::from_u64(1))
    } else {
        t
    };
    proof {
        if raw@ < pow2(k as nat) {
            lemma_candidate_range(raw@, k as nat);
        }
    }
    r
}

/// The odd numbers of two or three bits, 3, 5 and 7, are prime: every base
/// passes Fermat's check for them.
proof fn lemma_tiny_candidates(p: nat, k: nat)
    requires
        2 <= k <= 3,
        odd_with_bits(p, k),
    ensures
        passes_every_fermat_check(p),
        k == 2 ==> p == 3,
{
    lemma2_to64();
    reveal_with_fuel(pow, 7);
    assert(p == 3 || p == 5 || p == 7);
    assert forall|a: nat| 2 <= a < p implies !#[trigger] is_fermat_witness(a, p) by {
        reveal_with_fuel(pow, 7);
        if p == 3 {
            assert(a == 2);
            assert(pow(2, 2) == 4);
        } else if p == 5 {
            assert(a == 2 || a == 3 || a == 4);
            assert(pow(2, 4) == 16);
            assert(pow(3, 4) == 81);
            assert(pow(4, 4) == 256);
        } else {
            assert(a == 2 || a == 3 || a == 4 || a == 5 || a == 6);
            assert(pow(2, 6) == 64);
            assert(pow(3, 6) == 729);
            assert(pow(4, 6) == 4096);
            assert(pow(5, 6) == 15625);
            assert(pow(6, 6) == 46656);
        }
    }
}

/// A random probable prime of exactly `bit_size` bits, checked by Fermat's
/// test with `trials` bases. The search gives up after
/// `MAX_PRIME_CANDIDATES` candidates.
pub fn get_prime(bit_size: u64, trials: i32) -> (r: Result<BigNat, RsaError>)
    ensures
        r == Err::<BigNat, RsaError>(RsaError::InvalidInput) <==> bit_size < 2 || trials < 1,
        r matches Err(e) ==> e == RsaError::InvalidInput || e == RsaError::ResourceExhausted,
        r matches Ok(p) ==> odd_with_bits(p@, bit_size as nat) && passes_some_fermat_check(p@),
        2 <= bit_size <= 3 && trials >= 1 ==> r is Ok,
        bit_size == 2 && trials >= 1 ==> (r matches Ok(p) && p@ == 3),
{
    if bit_size < 2 || trials < 1 {
        return Err(RsaError::InvalidInput);
    }
    let mut drawn: u64 = 0;
    while drawn < MAX_PRIME_CANDIDATES
        invariant
            bit_size >= 2,
            trials >= 1,
            bit_size <= 3 ==> drawn == 0,
        decreases MAX_PRIME_CANDIDATES - drawn,
    {
        let raw = BigNat::random_bits(bit_size);
        let p = prime_candidate(&raw, bit_size);
        proof {
            lemma_pow2_unfold((bit_size - 1) as nat);
            lemma_pow2_pos((bit_size - 2) as nat);
            if bit_size <= 3 {
                lemma_tiny_candidates(p@, bit_size as nat);
            }
        }
        match f_test(&p, trials) {
            Ok(true) => {
                return Ok(p);
            },
            _ => {},
        }
        drawn = drawn + 1;
    }
    Err(RsaError::ResourceExhausted)
}

fn find_2_primes(bit_size: u64) -> (r: Result<(BigNat, BigNat), RsaError>)
    ensures
        r == Err::<(BigNat, BigNat), RsaError>(RsaError::InvalidInput) <==> bit_size / 2 < 2,
        r matches Err(e) ==> e == RsaError::InvalidInput || e == RsaError::ResourceExhausted,
        r matches Ok((p, q)) ==> odd_with_bits(p@, (bit_size / 2) as nat) && odd_with_bits(
            q@,
            (bit_size / 2) as nat,
        ) && passes_some_fermat_check(p@) && passes_some_fermat_check(q@),
        2 <= bit_size / 2 <= 3 ==> r is Ok,
{
    let p = get_prime(bit_size / 2, 2)?;
    let q = get_prime(bit_size / 2, 2)?;
    Ok((p, q))
}

/// Whether `(n, e, d)` is key material built from the odd `k`-bit numbers `p`
/// and `q`: `n = p*q`, and `d` is the inverse of `e` modulo
/// `phi = (p-1)*(q-1)`, reduced into `[0, phi)`.
pub open spec fn key_from_primes(n: nat, e: nat, d: nat, p: nat, q: nat, k: nat) -> bool {
    let phi = ((p - 1) * (q - 1)) as nat;
    &&& odd_with_bits(p, k)
    &&& odd_with_bits(q, k)
    &&& n == p * q
    &&& d < phi
    &&& (e * d) % phi == 1
}

/// Whether `(n, e, d)` is key material built from two odd `k`-bit numbers
/// that each passed a Fermat check.
pub open spec fn is_key_material(n: nat, e: nat, d: nat, k: nat) -> bool {
    exists|p: nat, q: nat|
        #[trigger] key_from_primes(n, e, d, p, q, k) && passes_some_fermat_check(p)
            && passes_some_fermat_check(q)
}

/// `(p-1)*(q-1)`.
pub open spec fn totient(p: nat, q: nat) -> nat {
    ((p - 1) * (q - 1)) as nat
}

pub(crate) proof fn lemma_gcd_divides(a: nat, b: nat)
    ensures
        exists|k: int| a == #[trigger] (gcd(a, b) * k),
        exists|k: int| b == #[trigger] (gcd(a, b) * k),
    decreases b,
{
    let g = gcd(a, b);
    if b == 0 {
        assert(a == g * 1);
        assert(b == g * 0);
    } else {
        lemma_gcd_divides(b, a % b);
        let k1 = choose|k: int| b == #[trigger] (g * k);
        let k2 = choose|k: int| a % b == #[trigger] (g * k);
        let (ai, bi, gi) = (a as int, b as int, g as int);
        lemma_fundamental_div_mod(ai, bi);
        assert(ai == gi * (k1 * (ai / bi) + k2)) by (nonlinear_arith)
            requires
                ai == bi * (ai / bi) + ai % bi,
                bi == gi * k1,
                ai % bi == gi * k2,
        ;
    }
}

proof fn lemma_factors_of_exponent(x: u64, y: u64)
    requires
        x <= 65537,
        y <= 65537,
        x * y == 65537,
    ensures
        x == 1 || x == 65537,
{
    assert(x * y == 65537 ==> x == 1 || x == 65537) by (bit_vector)
        requires
            x <= 65537,
            y <= 65537,
    ;
}

/// The public exponent is coprime to every number that it does not divide.
proof fn lemma_exponent_coprime(phi: nat)
    requires
        phi % 65537 != 0,
    ensures
        gcd(65537, phi) == 1,
{
    let g = gcd(65537, phi);
    lemma_gcd_divides(65537, phi);
    let k = choose|k: int| 65537 == #[trigger] (g * k);
    let j = choose|k: int| phi == #[trigger] (g * k);
    assert(g > 0 && k > 0 && g <= 65537 && k <= 65537) by (nonlinear_arith)
        requires
            65537 == g * k,
            g >= 0,
    ;
    lemma_factors_of_exponent(g as u64, k as u64);
    if g == 65537 {
        assert(phi as int == j * 65537 + 0) by (nonlinear_arith)
            requires
                phi == g * j,
                g == 65537,
        ;
        lemma_fundamental_div_mod_converse(phi as int, 65537, j, 0);
    }
}

proof fn lemma_trunc_rem_normalized(x: int, m: int)
    requires
        m > 0,
    ensures
        trunc_rem(x, m) >= 0 ==> trunc_rem(x, m) == x % m,
        trunc_rem(x, m) < 0 ==> trunc_rem(x, m) + m == x % m,
{
    if x < 0 {
        let y = -x;
        lemma_fundamental_div_mod(y, m);
        let qy = y / m;
        let ry = y % m;
        if ry > 0 {
            assert(x == (-qy - 1) * m + (m - ry)) by (nonlinear_arith)
                requires
                    y == m * qy + ry,
                    x == -y,
            ;
            lemma_fundamental_div_mod_converse(x, m, -qy - 1, m - ry);
        } else {
            assert(x == (-qy) * m + 0) by (nonlinear_arith)
                requires
                    y == m * qy + ry,
                    ry == 0,
                    x == -y,
            ;
            lemma_fundamental_div_mod_converse(x, m, -qy, 0);
        }
    }
}

proof fn lemma_inverse_from_bezout(e: int, x: int, phi: int, y: int, d: int)
    requires
        phi > 1,
        e * x + phi * y == 1,
        d == x % phi,
    ensures
        (e * d) % phi == 1,
{
    lemma_mul_mod_noop_right(e, x, phi);
    assert(e * x == (-y) * phi + 1) by (nonlinear_arith)
        requires
            e * x + phi * y == 1,
    ;
    lemma_fundamental_div_mod_converse(e * x, phi, -y, 1);
}

/// The key material of the primes `p` and `q`: `n = p*q`, `e = 65537` and
/// `d` the inverse of `e` modulo `(p-1)*(q-1)`, reduced into that range.
/// When `e` divides the totient it has no inverse, and the pair is refused.
pub fn key_from_pair(p: &BigNat, q: &BigNat) -> (r: Result<(BigNat, BigNat, BigNat), RsaError>)
    requires
        p@ >= 3,
        q@ >= 3,
    ensures
        r is Err <==> totient(p@, q@) % 65537 == 0,
        r matches Err(e) ==> e == RsaError::NonInvertibleExponent,
        r matches Ok((n, e, d)) ==> n@ == p@ * q@ && e@ == PUBLIC_EXPONENT && d@ < totient(
            p@,
            q@,
        ) && (e@ * d@) % totient(p@, q@) == 1,
{
    let one = BigNat::from_u64(1);
    let n = p.times(q);
    let e = BigNat::from_u64(PUBLIC_EXPONENT);
    let phi = p.minus(&one).times(&q.minus(&one));
    proof {
        assert(phi@ >= 4) by (nonlinear_arith)
            requires
                phi@ == (p@ - 1) * (q@ - 1),
                p@ >= 3,
                q@ >= 3,
        ;
    }
    if phi.remainder(&e).is_zero() {
        return Err(RsaError::NonInvertibleExponent);
    }
    let (x, y) = eea(&e, &phi);
    let phi_signed = BigSigned::from_nat(phi.duplicate());
    let mut d = x.remainder(&phi_signed);
    proof {
        lemma_trunc_rem_normalized(x@, phi@ as int);
    }
    if d.is_negative() {
        d = d.plus(&phi_signed);
    }
    proof {
        lemma_exponent_coprime(phi@);
        lemma_inverse_from_bezout(e@ as int, x@, phi@ as int, y@, d@);
    }
    match d.to_nat() {
        Some(d) => Ok((n, e, d)),
        None => Err(RsaError::ConversionFailure),
    }
}

/// Generates RSA key material `(n, e, d)` of about `bit_size` bits: two
/// random primes `p`, `q` of `bit_size / 2` bits each, `n = p*q`,
/// `e = 65537`, and `d` the inverse of `e` modulo `(p-1)*(q-1)`. A pair whose
/// totient `e` divides is discarded and a fresh pair drawn, at most
/// `MAX_KEY_ATTEMPTS` times.
pub fn gen_key(bit_size: u64) -> (r: Result<(BigNat, BigNat, BigNat), RsaError>)
    ensures
        r == Err::<(BigNat, BigNat, BigNat), RsaError>(RsaError::InvalidInput) <==> bit_size
            < MIN_KEY_BITS,
        r matches Err(e) ==> e == RsaError::InvalidInput || e == RsaError::ResourceExhausted,
        r matches Ok((n, e, d)) ==> e@ == PUBLIC_EXPONENT,
        r matches Ok((n, e, d)) ==> is_key_material(n@, e@, d@, (bit_size / 2) as nat),
        MIN_KEY_BITS <= bit_size < 8 ==> r is Ok,
{
    if bit_size < MIN_KEY_BITS {
        return Err(RsaError::InvalidInput);
    }
    let mut attempt: u64 = 0;
    while attempt < MAX_KEY_ATTEMPTS
        invariant
            bit_size >= MIN_KEY_BITS,
            bit_size < 8 ==> attempt == 0,
        decreases MAX_KEY_ATTEMPTS - attempt,
    {
        let (p, q) = find_2_primes(bit_size)?;
        proof {
            lemma_pow2_unfold((bit_size / 2 - 1) as nat);
            lemma_pow2_pos((bit_size / 2 - 2) as nat);
            if bit_size < 8 {
                lemma2_to64();
                assert(totient(p@, q@) < 65537 && totient(p@, q@) > 0) by (nonlinear_arith)
                    requires
                        3 <= p@ < 8,
                        3 <= q@ < 8,
                ;
            }
        }
        match key_from_pair(&p, &q) {
            Ok((n, e, d)) => {
                assert(key_from_primes(n@, e@, d@, p@, q@, (bit_size / 2) as nat));
                assert(is_key_material(n@, e@, d@, (bit_size / 2) as nat));
                return Ok((n, e, d));
            },
            Err(_) => {},
        }
        attempt = attempt + 1;
    }
    Err(RsaError::ResourceExhausted)
}

/// Decrypting a ciphertext made with exponent `e` under exponent `d` raises
/// the plaintext to `e*d`: `(m^e mod n)^d mod n == m^(e*d) mod n`.
pub proof fn lemma_decrypt_encrypt(m: nat, e: nat, d: nat, n: nat)
    requires
        n > 1,
    ensures
        mod_pow(mod_pow(m, e, n), d, n) == mod_pow(m, e * d, n),
{
    let c = pow(m as int, e);
    lemma_pow_mod_noop(c, d, n as int);
    lemma_pow_multiplies(m as int, e, d);
}

} // verus!
