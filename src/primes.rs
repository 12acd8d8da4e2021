//! Why textbook RSA decrypts correctly when both factors of the modulus are
//! prime: binomial coefficients, Euclid's lemma and Fermat's little theorem.
use crate::rsa::{bezout_pair, gcd, lemma_bezout_pair, key_from_primes, lemma_decrypt_encrypt, lemma_gcd_divides, mod_pow};
use vstd::arithmetic::div_mod::{
    lemma_add_mod_noop, lemma_fundamental_div_mod, lemma_fundamental_div_mod_converse,
    lemma_mul_mod_noop_left, lemma_mul_mod_noop_right, lemma_small_mod,
};
use vstd::arithmetic::power::{lemma0_pow, lemma_pow0, lemma_pow1, lemma_pow_adds, pow};
use vstd::prelude::*;

verus! {

/// Whether `p` is prime: above 1, with no divisor strictly between 1 and `p`.
pub open spec fn is_prime(p: nat) -> bool {
    p > 1 && forall|d: nat| 1 < d < p ==> #[trigger] (p % d) != 0
}

/// Euclid's lemma: a prime that divides a product and not one factor divides
/// the other.
proof fn lemma_euclid(p: nat, a: int, b: int)
    requires
        is_prime(p),
        (a * b) % (p as int) == 0,
        a % (p as int) != 0,
    ensures
        b % (p as int) == 0,
{
    let pi = p as int;
    let an = (a % pi) as nat;
    let g = gcd(p, an);
    lemma_gcd_divides(p, an);
    let k1 = choose|k: int| p == #[trigger] (g * k);
    let k2 = choose|k: int| an == #[trigger] (g * k);
    assert(g >= 1 && g <= an) by (nonlinear_arith)
        requires
            p == g * k1,
            an == g * k2,
            p > 1,
            an > 0,
            g >= 0,
    ;
    if g > 1 {
        lemma_fundamental_div_mod_converse(pi, g as int, k1, 0);
        assert(p % g == 0);
    }
    assert(g == 1);
    let (x, y) = bezout_pair(p, an);
    lemma_bezout_pair(p, an);
    lemma_mul_mod_noop_left(a, b, pi);
    lemma_fundamental_div_mod(an * b, pi);
    let t = (an * b) / pi;
    assert(b == pi * (b * x + t * y)) by (nonlinear_arith)
        requires
            pi * x + an * y == 1,
            an * b == pi * t,
    ;
    lemma_fundamental_div_mod_converse(b, pi, b * x + t * y, 0);
}

/// The binomial coefficient `n choose k`, by Pascal's rule.
pub open spec fn binom(n: nat, k: nat) -> nat
    decreases n,
{
    if k == 0 {
        1
    } else if n == 0 {
        0
    } else {
        binom((n - 1) as nat, (k - 1) as nat) + binom((n - 1) as nat, k)
    }
}

proof fn lemma_binom_above(n: nat, k: nat)
    requires
        k > n,
    ensures
        binom(n, k) == 0,
    decreases n,
{
    if n > 0 {
        lemma_binom_above((n - 1) as nat, (k - 1) as nat);
        lemma_binom_above((n - 1) as nat, k);
    }
}

proof fn lemma_binom_diagonal(n: nat)
    ensures
        binom(n, n) == 1,
    decreases n,
{
    if n > 0 {
        lemma_binom_diagonal((n - 1) as nat);
        lemma_binom_above((n - 1) as nat, n);
    }
}

/// `k * C(n, k) == n * C(n-1, k-1)`.
proof fn lemma_binom_absorb(n: nat, k: nat)
    requires
        n >= 1,
        k >= 1,
    ensures
        k * binom(n, k) == n * binom((n - 1) as nat, (k - 1) as nat),
    decreases n,
{
    assert(binom(n, k) == binom((n - 1) as nat, (k - 1) as nat) + binom((n - 1) as nat, k));
    if n == 1 {
        lemma_binom_above(0, k);
        if k >= 2 {
            lemma_binom_above(0, (k - 1) as nat);
        }
    } else {
        let (a, b) = (binom((n - 1) as nat, (k - 1) as nat), binom((n - 1) as nat, k));
        lemma_binom_absorb((n - 1) as nat, k);
        if k == 1 {
            assert(binom((n - 1) as nat, 0) == 1);
            assert(binom((n - 2) as nat, 0) == 1);
            assert(binom(n, 1) == n) by (nonlinear_arith)
                requires
                    binom(n, 1) == 1 + b,
                    1 * b == (n - 1) * 1,
            ;
        } else {
            lemma_binom_absorb((n - 1) as nat, (k - 1) as nat);
            let c = binom((n - 2) as nat, (k - 2) as nat);
            let d = binom((n - 2) as nat, (k - 1) as nat);
            assert(a == c + d);
            assert(k * (a + b) == n * a) by (nonlinear_arith)
                requires
                    k * b == (n - 1) * d,
                    (k - 1) * a == (n - 1) * c,
                    a == c + d,
            ;
        }
    }
}

/// A prime divides each of its binomial coefficients but the two outer ones.
proof fn lemma_prime_divides_binom(p: nat, k: nat)
    requires
        is_prime(p),
        0 < k < p,
    ensures
        (binom(p, k) as int) % (p as int) == 0,
{
    lemma_binom_absorb(p, k);
    let r = binom((p - 1) as nat, (k - 1) as nat) as int;
    lemma_fundamental_div_mod_converse((k * binom(p, k)) as int, p as int, r, 0);
    lemma_small_mod(k, p);
    lemma_euclid(p, k as int, binom(p, k) as int);
}

/// `sum_{i <= j} C(n, i) x^i`.
pub open spec fn binom_sum(n: nat, x: int, j: nat) -> int
    decreases j,
{
    if j == 0 {
        1
    } else {
        binom_sum(n, x, (j - 1) as nat) + binom(n, j) * pow(x, j)
    }
}

proof fn lemma_binom_sum_step(n: nat, x: int, j: nat)
    requires
        j >= 1,
    ensures
        binom_sum(n + 1, x, j) == binom_sum(n, x, j) + x * binom_sum(n, x, (j - 1) as nat),
    decreases j,
{
    lemma_pow_adds(x, 1, (j - 1) as nat);
    lemma_pow1(x);
    if j == 1 {
        lemma_pow0(x);
        assert(binom(n, 0) == 1);
        assert(binom(n + 1, 1) == 1 + binom(n, 1));
        assert(pow(x, 1) == x);
        assert(binom_sum(n + 1, x, 0) == 1);
        assert(binom_sum(n, x, 0) == 1);
        assert(binom_sum(n + 1, x, 1) == 1 + binom(n + 1, 1) * x);
        assert(binom_sum(n, x, 1) == 1 + binom(n, 1) * x);
        assert((1 + binom(n, 1)) * x == binom(n, 1) * x + x) by (nonlinear_arith);
    } else {
        lemma_binom_sum_step(n, x, (j - 1) as nat);
        let (s1, s2) = (binom_sum(n, x, (j - 1) as nat), binom_sum(n, x, (j - 2) as nat));
        assert(binom(n + 1, j) == binom(n, (j - 1) as nat) + binom(n, j));
        assert(binom_sum(n + 1, x, j) == binom_sum(n, x, j) + x * s1) by (nonlinear_arith)
            requires
                binom_sum(n + 1, x, j) == binom_sum(n + 1, x, (j - 1) as nat) + binom(n + 1, j)
                    * pow(x, j),
                binom_sum(n + 1, x, (j - 1) as nat) == s1 + x * s2,
                binom(n + 1, j) == binom(n, (j - 1) as nat) + binom(n, j),
                binom_sum(n, x, j) == s1 + binom(n, j) * pow(x, j),
                s1 == s2 + binom(n, (j - 1) as nat) * pow(x, (j - 1) as nat),
                pow(x, j) == x * pow(x, (j - 1) as nat),
        ;
    }
}

/// The binomial theorem for `(x + 1)^n`.
proof fn lemma_binomial(x: int, n: nat)
    ensures
        pow(x + 1, n) == binom_sum(n, x, n),
    decreases n,
{
    if n == 0 {
        lemma_pow0(x + 1);
    } else {
        let m = (n - 1) as nat;
        lemma_binomial(x, m);
        lemma_pow_adds(x + 1, m, 1);
        lemma_pow1(x + 1);
        lemma_binom_sum_step(m, x, n);
        lemma_binom_above(m, n);
        let s = binom_sum(m, x, m);
        assert(binom_sum(m, x, n) == s);
        assert(pow(x + 1, n) == s + x * s) by (nonlinear_arith)
            requires
                pow(x + 1, n) == pow(x + 1, m) * (x + 1),
                pow(x + 1, m) == s,
        ;
    }
}

proof fn lemma_binom_sum_inner(p: nat, x: int, j: nat)
    requires
        is_prime(p),
        j < p,
    ensures
        (binom_sum(p, x, j) - 1) % (p as int) == 0,
    decreases j,
{
    if j > 0 {
        let pi = p as int;
        let c = binom(p, j) as int;
        let prev = binom_sum(p, x, (j - 1) as nat) - 1;
        lemma_binom_sum_inner(p, x, (j - 1) as nat);
        lemma_prime_divides_binom(p, j);
        lemma_mul_mod_noop_left(c, pow(x, j), pi);
        assert((c % pi) * pow(x, j) == 0);
        lemma_small_mod(0, p);
        lemma_add_mod_noop(prev, c * pow(x, j), pi);
        assert(binom_sum(p, x, j) - 1 == prev + c * pow(x, j));
        assert((prev + c * pow(x, j)) % pi == 0);
    } else {
        lemma_small_mod(0, p);
        assert(binom_sum(p, x, 0) == 1);
    }
}

/// Fermat's little theorem in the form `a^p == a (mod p)`.
pub proof fn lemma_fermat_little(p: nat, a: nat)
    requires
        is_prime(p),
    ensures
        (pow(a as int, p) - a) % (p as int) == 0,
    decreases a,
{
    if a == 0 {
        lemma0_pow(p);
        assert(pow(0, p) == 0);
    } else {
        let b = (a - 1) as nat;
        lemma_fermat_little(p, b);
        lemma_binomial(b as int, p);
        lemma_binom_sum_inner(p, b as int, (p - 1) as nat);
        lemma_binom_diagonal(p);
        let s = binom_sum(p, b as int, (p - 1) as nat);
        assert(binom_sum(p, b as int, p) == s + binom(p, p) * pow(b as int, p));
        assert(b as int + 1 == a as int);
        assert(pow(a as int, p) == s + pow(b as int, p));
        assert(pow(a as int, p) - a == (s - 1) + (pow(b as int, p) - b));
        lemma_add_mod_noop(s - 1, pow(b as int, p) - b, p as int);
        lemma_small_mod(0, p);
    }
}

/// `m^(1 + k(p-1)) == m (mod p)` for a prime `p`.
proof fn lemma_power_cycle(p: nat, m: nat, k: nat)
    requires
        is_prime(p),
    ensures
        (pow(m as int, 1 + k * (p - 1) as nat) - m) % (p as int) == 0,
    decreases k,
{
    let pi = p as int;
    let mi = m as int;
    lemma_pow1(mi);
    if k == 0 {
        lemma_small_mod(0, p);
        assert(1 + k * (p - 1) as nat == 1);
    } else {
        let j = (k - 1) as nat;
        let ej = j * (p - 1) as nat;
        lemma_power_cycle(p, m, j);
        lemma_fermat_little(p, m);
        assert(1 + k * (p - 1) as nat == ej + p) by (nonlinear_arith)
            requires
                j == k - 1,
                ej == j * (p - 1) as nat,
                p > 1,
        ;
        let a = pow(mi, ej);
        lemma_pow_adds(mi, ej, p);
        lemma_pow_adds(mi, 1, ej);
        let u = pow(mi, p) - mi;
        let v = pow(mi, 1 + ej) - mi;
        assert(pow(mi, ej + p) - mi == a * u + v) by (nonlinear_arith)
            requires
                pow(mi, ej + p) == a * pow(mi, p),
                pow(mi, 1 + ej) == mi * a,
                u == pow(mi, p) - mi,
                v == pow(mi, 1 + ej) - mi,
        ;
        lemma_mul_mod_noop_right(a, u, pi);
        lemma_small_mod(0, p);
        assert(a * (u % pi) == 0);
        lemma_add_mod_noop(a * u, v, pi);
    }
}

/// A number divisible by two distinct primes is divisible by their product.
proof fn lemma_two_primes_divide(p: nat, q: nat, z: int)
    requires
        is_prime(p),
        is_prime(q),
        p != q,
        z % (p as int) == 0,
        z % (q as int) == 0,
    ensures
        z % ((p * q) as int) == 0,
{
    let (pi, qi) = (p as int, q as int);
    lemma_fundamental_div_mod(z, pi);
    let s = z / pi;
    if p % q == 0 {
        if q > p {
            lemma_small_mod(p, q);
        }
        assert(1 < q < p);
        assert(p % q != 0);
    }
    assert(pi % qi != 0);
    lemma_euclid(q, pi, s);
    lemma_fundamental_div_mod(s, qi);
    let u = s / qi;
    assert(z == u * (pi * qi) + 0 && pi * qi > 0) by (nonlinear_arith)
        requires
            z == pi * s + z % pi,
            z % pi == 0,
            s == qi * u + s % qi,
            s % qi == 0,
            pi > 1,
            qi > 1,
    ;
    lemma_fundamental_div_mod_converse(z, pi * qi, u, 0);
}

/// Textbook RSA decrypts what it encrypts when both factors of the modulus
/// are prime and distinct: for key material `(n, e, d)` built from them,
/// `(m^e mod n)^d mod n == m` for every `m < n`.
pub proof fn lemma_round_trip(n: nat, e: nat, d: nat, p: nat, q: nat, k: nat, m: nat)
    requires
        key_from_primes(n, e, d, p, q, k),
        is_prime(p),
        is_prime(q),
        p != q,
        m < n,
    ensures
        mod_pow(mod_pow(m, e, n), d, n) == m,
{
    let phi = ((p - 1) * (q - 1)) as nat;
    assert(phi >= 1 && n >= 4) by (nonlinear_arith)
        requires
            phi == (p - 1) * (q - 1),
            n == p * q,
            p >= 2,
            q >= 2,
    ;
    let ed = e * d;
    lemma_fundamental_div_mod(ed as int, phi as int);
    let t = ed / phi;
    assert(ed == 1 + (t * (q - 1) as nat) * (p - 1) as nat && ed == 1 + (t * (p - 1) as nat) * (
    q - 1) as nat) by (nonlinear_arith)
        requires
            ed == phi * t + ed % phi,
            ed % phi == 1,
            phi == (p - 1) * (q - 1),
            p >= 2,
            q >= 2,
    ;
    lemma_power_cycle(p, m, t * (q - 1) as nat);
    lemma_power_cycle(q, m, t * (p - 1) as nat);
    let z = pow(m as int, ed) - m;
    lemma_two_primes_divide(p, q, z);
    lemma_fundamental_div_mod(z, n as int);
    lemma_fundamental_div_mod_converse(pow(m as int, ed), n as int, z / (n as int), m as int);
    lemma_decrypt_encrypt(m, e, d, n);
}

} // verus!
