//! Arbitrary-precision integers held as base-2^32 digits, least significant
//! first. All arithmetic on them is done by `num-bigint`.
use num_bigint::{BigInt, BigUint, RandBigInt, Sign};
use vstd::arithmetic::power2::pow2;
use vstd::prelude::*;

verus! {

/// The value of a little-endian sequence of base-2^32 digits.
pub open spec fn digits_value(s: Seq<u32>) -> nat
    decreases s.len(),
{
    if s.len() == 0 {
        0
    } else {
        s[0] as nat + 0x1_0000_0000 * digits_value(s.drop_first())
    }
}

/// A non-negative integer of any size.
#[derive(Clone, Debug, PartialEq, Eq)]
pub struct BigNat {
    pub digits: Vec<u32>,
}

impl View for BigNat {
    type V = nat;

    open spec fn view(&self) -> nat {
        digits_value(self.digits@)
    }
}

/// An integer of any size and sign; zero may carry either sign.
#[derive(Clone, Debug)]
pub struct BigSigned {
    pub negative: bool,
    pub magnitude: BigNat,
}

impl View for BigSigned {
    type V = int;

    open spec fn view(&self) -> int {
        if self.negative {
            -(self.magnitude@ as int)
        } else {
            self.magnitude@ as int
        }
    }
}

/// The remainder of `a / b` when the quotient is truncated toward zero: it has
/// the sign of `a` and the magnitude `|a| mod |b|`.
pub open spec fn trunc_rem(a: int, b: int) -> int {
    let m = (if a < 0 { -a } else { a }) % (if b < 0 { -b } else { b });
    if a < 0 { -m } else { m }
}

impl BigNat {
    /// A copy of the value.
    pub fn duplicate(&self) -> (r: BigNat)
        ensures
            r@ == self@,
    {
        BigNat { digits: self.digits.clone() }
    }

    /// The value of a machine integer, with no zero digit on top.
    pub fn from_u64(v: u64) -> (r: BigNat)
        ensures
            r@ == v as nat,
    {
        let lo = #[verifier::truncate] ((v & 0xffff_ffff) as u32);
        let hi = #[verifier::truncate] ((v >> 32u64) as u32);
        assert(v == lo as u64 + (hi as u64) * 0x1_0000_0000) by (bit_vector)
            requires
                lo == (v & 0xffff_ffff) as u32,
                hi == (v >> 32u64) as u32,
        ;
        let mut digits: Vec<u32> = Vec::new();
        if hi != 0 {
            digits.push(lo);
            digits.push(hi);
            proof {
                let t = digits@.drop_first();
                assert(t.drop_first() =~= Seq::<u32>::empty());
                assert(digits_value(t.drop_first()) == 0);
                assert(t[0] == hi);
                assert(digits_value(t) == hi as nat);
                assert(digits@[0] == lo);
            }
        } else if lo != 0 {
            digits.push(lo);
            proof {
                assert(digits@.drop_first() =~= Seq::<u32>::empty());
                assert(digits_value(digits@.drop_first()) == 0);
                assert(digits@[0] == lo);
            }
        }
        BigNat { digits }
    }

    /// Relies on `num_traits::Zero::is_zero` for `BigUint`.
    #[verifier::external_body]
    pub(crate) fn is_zero(&self) -> (r: bool)
        ensures
            r == (self@ == 0),
    {
        num_traits::Zero::is_zero(&BigUint::new(self.digits.clone()))
    }

    /// Relies on `BigUint`'s `<`, which compares values.
    #[verifier::external_body]
    pub(crate) fn less_than(&self, other: &BigNat) -> (r: bool)
        ensures
            r == (self@ < other@),
    {
        BigUint::new(self.digits.clone()) < BigUint::new(other.digits.clone())
    }

    /// Relies on `BigUint`'s `==`, which compares values.
    #[verifier::external_body]
    pub(crate) fn same_value(&self, other: &BigNat) -> (r: bool)
        ensures
            r == (self@ == other@),
    {
        BigUint::new(self.digits.clone()) == BigUint::new(other.digits.clone())
    }

    /// Relies on `BigUint`'s `+`.
    #[verifier::external_body]
    pub(crate) fn plus(&self, other: &BigNat) -> (r: BigNat)
        ensures
            r@ == self@ + other@,
    {
        let s = BigUint::new(self.digits.clone()) + BigUint::new(other.digits.clone());
        BigNat { digits: s.to_u32_digits() }
    }

    /// Relies on `BigUint`'s `-`, which panics when the result would be negative.
    #[verifier::external_body]
    pub(crate) fn minus(&self, other: &BigNat) -> (r: BigNat)
        requires
            other@ <= self@,
        ensures
            r@ == self@ - other@,
    {
        let s = BigUint::new(self.digits.clone()) - BigUint::new(other.digits.clone());
        BigNat { digits: s.to_u32_digits() }
    }

    /// Relies on `BigUint`'s `*`.
    #[verifier::external_body]
    pub(crate) fn times(&self, other: &BigNat) -> (r: BigNat)
        ensures
            r@ == self@ * other@,
    {
        let s = BigUint::new(self.digits.clone()) * BigUint::new(other.digits.clone());
        BigNat { digits: s.to_u32_digits() }
    }

    /// Relies on `BigUint`'s `/`, floor division that panics on a zero divisor.
    #[verifier::external_body]
    pub(crate) fn quotient(&self, other: &BigNat) -> (r: BigNat)
        requires
            other@ > 0,
        ensures
            r@ == self@ / other@,
    {
        let s = BigUint::new(self.digits.clone()) / BigUint::new(other.digits.clone());
        BigNat { digits: s.to_u32_digits() }
    }

    /// Relies on `BigUint`'s `%`, which panics on a zero divisor.
    #[verifier::external_body]
    pub(crate) fn remainder(&self, other: &BigNat) -> (r: BigNat)
        requires
            other@ > 0,
        ensures
            r@ == self@ % other@,
    {
        let s = BigUint::new(self.digits.clone()) % BigUint::new(other.digits.clone());
        BigNat { digits: s.to_u32_digits() }
    }

    /// Relies on `BigUint::bits`: the fewest bits that express the value.
    #[verifier::external_body]
    pub(crate) fn bit_length(&self) -> (r: u64)
        ensures
            self@ < pow2(r as nat),
            r > 0 ==> pow2((r - 1) as nat) <= self@,
    {
        BigUint::new(self.digits.clone()).bits()
    }

    /// Relies on `BigUint::bit`: whether bit `i` of the value is set.
    #[verifier::external_body]
    pub(crate) fn bit(&self, i: u64) -> (r: bool)
        ensures
            r == ((self@ / pow2(i as nat)) % 2 == 1),
    {
        BigUint::new(self.digits.clone()).bit(i)
    }

    /// Relies on `BigUint::set_bit` with `true`: bit `i` is set, the others kept.
    #[verifier::external_body]
    pub(crate) fn with_bit_set(&self, i: u64) -> (r: BigNat)
        ensures
            r@ == if (self@ / pow2(i as nat)) % 2 == 1 { self@ } else { self@ + pow2(i as nat) },
    {
        let mut s = BigUint::new(self.digits.clone());
        s.set_bit(i, true);
        BigNat { digits: s.to_u32_digits() }
    }

    /// Relies on `RandBigInt::gen_biguint` on the thread-local generator: a
    /// random value of at most `bits` bits.
    #[verifier::external_body]
    pub(crate) fn random_bits(bits: u64) -> (r: BigNat)
        ensures
            r@ < pow2(bits as nat),
    {
        BigNat { digits: rand::thread_rng().gen_biguint(bits).to_u32_digits() }
    }

    /// Relies on `RandBigInt::gen_biguint_range` on the thread-local generator:
    /// a random value in `[low, high)`; it panics on an empty range.
    #[verifier::external_body]
    pub(crate) fn random_range(low: &BigNat, high: &BigNat) -> (r: BigNat)
        requires
            low@ < high@,
        ensures
            low@ <= r@ < high@,
    {
        let lo = BigUint::new(low.digits.clone());
        let hi = BigUint::new(high.digits.clone());
        BigNat { digits: rand::thread_rng().gen_biguint_range(&lo, &hi).to_u32_digits() }
    }
}

impl BigSigned {
    /// The same value, non-negative.
    pub fn from_nat(n: BigNat) -> (r: BigSigned)
        ensures
            r@ == n@ as int,
    {
        BigSigned { negative: false, magnitude: n }
    }

    /// Whether the value is below zero.
    pub fn is_negative(&self) -> (r: bool)
        ensures
            r == (self@ < 0),
    {
        self.negative && !self.magnitude.is_zero()
    }

    /// The same value as an unsigned integer, or `None` when it is negative.
    pub fn to_nat(&self) -> (r: Option<BigNat>)
        ensures
            r is None <==> self@ < 0,
            r matches Some(n) ==> n@ == self@,
    {
        if self.is_negative() {
            None
        } else {
            Some(self.magnitude.duplicate())
        }
    }

    /// Relies on `BigInt`'s `+`.
    #[verifier::external_body]
    pub(crate) fn plus(&self, other: &BigSigned) -> (r: BigSigned)
        ensures
            r@ == self@ + other@,
    {
        let sa = if self.negative { Sign::Minus } else { Sign::Plus };
        let sb = if other.negative { Sign::Minus } else { Sign::Plus };
        let a = BigInt::from_biguint(sa, BigUint::new(self.magnitude.digits.clone()));
        let b = BigInt::from_biguint(sb, BigUint::new(other.magnitude.digits.clone()));
        let (sign, digits) = (a + b).to_u32_digits();
        BigSigned { negative: sign == Sign::Minus, magnitude: BigNat { digits } }
    }

    /// Relies on `BigInt`'s `-`.
    #[verifier::external_body]
    pub(crate) fn minus(&self, other: &BigSigned) -> (r: BigSigned)
        ensures
            r@ == self@ - other@,
    {
        let sa = if self.negative { Sign::Minus } else { Sign::Plus };
        let sb = if other.negative { Sign::Minus } else { Sign::Plus };
        let a = BigInt::from_biguint(sa, BigUint::new(self.magnitude.digits.clone()));
        let b = BigInt::from_biguint(sb, BigUint::new(other.magnitude.digits.clone()));
        let (sign, digits) = (a - b).to_u32_digits();
        BigSigned { negative: sign == Sign::Minus, magnitude: BigNat { digits } }
    }

    /// Relies on `BigInt`'s `*`.
    #[verifier::external_body]
    pub(crate) fn times(&self, other: &BigSigned) -> (r: BigSigned)
        ensures
            r@ == self@ * other@,
    {
        let sa = if self.negative { Sign::Minus } else { Sign::Plus };
        let sb = if other.negative { Sign::Minus } else { Sign::Plus };
        let a = BigInt::from_biguint(sa, BigUint::new(self.magnitude.digits.clone()));
        let b = BigInt::from_biguint(sb, BigUint::new(other.magnitude.digits.clone()));
        let (sign, digits) = (a * b).to_u32_digits();
        BigSigned { negative: sign == Sign::Minus, magnitude: BigNat { digits } }
    }

    /// Relies on `BigInt`'s `%`, the remainder of division truncated toward zero; it panics on a zero divisor.
    #[verifier::external_body]
    pub(crate) fn remainder(&self, other: &BigSigned) -> (r: BigSigned)
        requires
            other@ != 0,
        ensures
            r@ == trunc_rem(self@, other@),
    {
        let sa = if self.negative { Sign::Minus } else { Sign::Plus };
        let sb = if other.negative { Sign::Minus } else { Sign::Plus };
        let a = BigInt::from_biguint(sa, BigUint::new(self.magnitude.digits.clone()));
        let b = BigInt::from_biguint(sb, BigUint::new(other.magnitude.digits.clone()));
        let (sign, digits) = (a % b).to_u32_digits();
        BigSigned { negative: sign == Sign::Minus, magnitude: BigNat { digits } }
    }
}

} // verus!
