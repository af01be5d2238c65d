//! The arithmetic on arbitrary-precision numbers that malachite computes. Each function here
//! converts its plain-valued arguments to malachite's `Rational` or `Integer`, makes one call,
//! and converts the result back; its contract is what malachite documents of that call.
use crate::math::component::rational::{abs, pow_u64, nat_gcd, q_add, q_ceiling, q_div, q_eq, q_floor, q_lt, q_mul, q_sub, wf_rat, BigInteger, BigNatural, BigRational};
use malachite::base::num::arithmetic::traits::{Ceiling, ExtendedGcd, Floor, Pow, Sign, UnsignedAbs};
use malachite::rational::Rational;
use malachite::{Integer, Natural};
use std::cmp::Ordering;
use vstd::prelude::*;

verus! {

/// Malachite's `&Rational + &Rational`: the exact sum, in lowest terms (malachite keeps every
/// `Rational` so) with a positive denominator.
#[verifier::external_body]
pub(crate) fn rat_add(a: &BigRational, b: &BigRational) -> (r: BigRational)
    requires
        wf_rat(*a),
        wf_rat(*b),
    ensures
        wf_rat(r),
        q_eq(r@, q_add(a@, b@)),
        nat_gcd(r.numerator@, r.denominator@) == 1,
{
    let x = Rational::from_sign_and_naturals(a.non_negative, Natural::from_limbs_asc(&a.numerator.limbs), Natural::from_limbs_asc(&a.denominator.limbs));
    let y = Rational::from_sign_and_naturals(b.non_negative, Natural::from_limbs_asc(&b.numerator.limbs), Natural::from_limbs_asc(&b.denominator.limbs));
    let z = &x + &y;
    let s = match z.sign() { Ordering::Less => false, Ordering::Equal => true, Ordering::Greater => true };
    let (n, d) = z.into_numerator_and_denominator();
    BigRational { non_negative: s, numerator: BigNatural { limbs: n.into_limbs_asc() }, denominator: BigNatural { limbs: d.into_limbs_asc() } }
}

/// Malachite's `&Rational - &Rational`: the exact difference, with a positive denominator.
#[verifier::external_body]
pub(crate) fn rat_sub(a: &BigRational, b: &BigRational) -> (r: BigRational)
    requires
        wf_rat(*a),
        wf_rat(*b),
    ensures
        wf_rat(r),
        q_eq(r@, q_sub(a@, b@)),
{
    let x = Rational::from_sign_and_naturals(a.non_negative, Natural::from_limbs_asc(&a.numerator.limbs), Natural::from_limbs_asc(&a.denominator.limbs));
    let y = Rational::from_sign_and_naturals(b.non_negative, Natural::from_limbs_asc(&b.numerator.limbs), Natural::from_limbs_asc(&b.denominator.limbs));
    let z = &x - &y;
    let s = match z.sign() { Ordering::Less => false, Ordering::Equal => true, Ordering::Greater => true };
    let (n, d) = z.into_numerator_and_denominator();
    BigRational { non_negative: s, numerator: BigNatural { limbs: n.into_limbs_asc() }, denominator: BigNatural { limbs: d.into_limbs_asc() } }
}

/// Malachite's `&Rational * &Rational`: the exact product, with a positive denominator.
#[verifier::external_body]
pub(crate) fn rat_mul(a: &BigRational, b: &BigRational) -> (r: BigRational)
    requires
        wf_rat(*a),
        wf_rat(*b),
    ensures
        wf_rat(r),
        q_eq(r@, q_mul(a@, b@)),
{
    let x = Rational::from_sign_and_naturals(a.non_negative, Natural::from_limbs_asc(&a.numerator.limbs), Natural::from_limbs_asc(&a.denominator.limbs));
    let y = Rational::from_sign_and_naturals(b.non_negative, Natural::from_limbs_asc(&b.numerator.limbs), Natural::from_limbs_asc(&b.denominator.limbs));
    let z = &x * &y;
    let s = match z.sign() { Ordering::Less => false, Ordering::Equal => true, Ordering::Greater => true };
    let (n, d) = z.into_numerator_and_denominator();
    BigRational { non_negative: s, numerator: BigNatural { limbs: n.into_limbs_asc() }, denominator: BigNatural { limbs: d.into_limbs_asc() } }
}

/// Malachite's `&Rational / &Rational`, which panics on a zero divisor: the exact quotient,
/// with a positive denominator.
#[verifier::external_body]
pub(crate) fn rat_div(a: &BigRational, b: &BigRational) -> (r: BigRational)
    requires
        wf_rat(*a),
        wf_rat(*b),
        b@.n != 0,
    ensures
        wf_rat(r),
        q_eq(r@, q_div(a@, b@)),
{
    let x = Rational::from_sign_and_naturals(a.non_negative, Natural::from_limbs_asc(&a.numerator.limbs), Natural::from_limbs_asc(&a.denominator.limbs));
    let y = Rational::from_sign_and_naturals(b.non_negative, Natural::from_limbs_asc(&b.numerator.limbs), Natural::from_limbs_asc(&b.denominator.limbs));
    let z = &x / &y;
    let s = match z.sign() { Ordering::Less => false, Ordering::Equal => true, Ordering::Greater => true };
    let (n, d) = z.into_numerator_and_denominator();
    BigRational { non_negative: s, numerator: BigNatural { limbs: n.into_limbs_asc() }, denominator: BigNatural { limbs: d.into_limbs_asc() } }
}

/// Malachite's `Rational == Rational`: whether the two numbers are equal.
#[verifier::external_body]
pub(crate) fn rat_eq(a: &BigRational, b: &BigRational) -> (r: bool)
    requires
        wf_rat(*a),
        wf_rat(*b),
    ensures
        r == q_eq(a@, b@),
{
    let x = Rational::from_sign_and_naturals(a.non_negative, Natural::from_limbs_asc(&a.numerator.limbs), Natural::from_limbs_asc(&a.denominator.limbs));
    let y = Rational::from_sign_and_naturals(b.non_negative, Natural::from_limbs_asc(&b.numerator.limbs), Natural::from_limbs_asc(&b.denominator.limbs));
    x == y
}

/// Malachite's `Rational < Rational`: whether `a` is less than `b`.
#[verifier::external_body]
pub(crate) fn rat_lt(a: &BigRational, b: &BigRational) -> (r: bool)
    requires
        wf_rat(*a),
        wf_rat(*b),
    ensures
        r == q_lt(a@, b@),
{
    let x = Rational::from_sign_and_naturals(a.non_negative, Natural::from_limbs_asc(&a.numerator.limbs), Natural::from_limbs_asc(&a.denominator.limbs));
    let y = Rational::from_sign_and_naturals(b.non_negative, Natural::from_limbs_asc(&b.numerator.limbs), Natural::from_limbs_asc(&b.denominator.limbs));
    x < y
}

/// Malachite's `Floor` of a `Rational`: the greatest integer not above it.
#[verifier::external_body]
pub(crate) fn rat_floor(a: &BigRational) -> (r: BigInteger)
    requires
        wf_rat(*a),
    ensures
        r@ == q_floor(a@),
{
    let x = Rational::from_sign_and_naturals(a.non_negative, Natural::from_limbs_asc(&a.numerator.limbs), Natural::from_limbs_asc(&a.denominator.limbs));
    let z = (&x).floor();
    let s = match z.sign() { Ordering::Less => false, Ordering::Equal => true, Ordering::Greater => true };
    BigInteger { non_negative: s, magnitude: BigNatural { limbs: z.unsigned_abs().into_limbs_asc() } }
}

/// Malachite's `Ceiling` of a `Rational`: the least integer not below it.
#[verifier::external_body]
pub(crate) fn rat_ceiling(a: &BigRational) -> (r: BigInteger)
    requires
        wf_rat(*a),
    ensures
        r@ == q_ceiling(a@),
{
    let x = Rational::from_sign_and_naturals(a.non_negative, Natural::from_limbs_asc(&a.numerator.limbs), Natural::from_limbs_asc(&a.denominator.limbs));
    let z = (&x).ceiling();
    let s = match z.sign() { Ordering::Less => false, Ordering::Equal => true, Ordering::Greater => true };
    BigInteger { non_negative: s, magnitude: BigNatural { limbs: z.unsigned_abs().into_limbs_asc() } }
}

/// Malachite's `&Integer * &Integer`: the exact product.
#[verifier::external_body]
pub(crate) fn int_mul(a: &BigInteger, b: &BigInteger) -> (r: BigInteger)
    ensures
        r@ == a@ * b@,
{
    let x = Integer::from_sign_and_abs(a.non_negative, Natural::from_limbs_asc(&a.magnitude.limbs));
    let y = Integer::from_sign_and_abs(b.non_negative, Natural::from_limbs_asc(&b.magnitude.limbs));
    let z = &x * &y;
    let s = match z.sign() { Ordering::Less => false, Ordering::Equal => true, Ordering::Greater => true };
    BigInteger { non_negative: s, magnitude: BigNatural { limbs: z.unsigned_abs().into_limbs_asc() } }
}

/// The quotient of `a` by `b` rounded toward zero.
pub open spec fn int_div_trunc(a: int, b: int) -> int {
    if (a >= 0) == (b > 0) {
        (abs(a) / abs(b)) as int
    } else {
        -((abs(a) / abs(b)) as int)
    }
}

/// Malachite's `&Integer / &Integer`, which panics on a zero divisor: the quotient rounded
/// toward zero.
#[verifier::external_body]
pub(crate) fn int_div(a: &BigInteger, b: &BigInteger) -> (r: BigInteger)
    requires
        b@ != 0,
    ensures
        r@ == int_div_trunc(a@, b@),
{
    let x = Integer::from_sign_and_abs(a.non_negative, Natural::from_limbs_asc(&a.magnitude.limbs));
    let y = Integer::from_sign_and_abs(b.non_negative, Natural::from_limbs_asc(&b.magnitude.limbs));
    let z = &x / &y;
    let s = match z.sign() { Ordering::Less => false, Ordering::Equal => true, Ordering::Greater => true };
    BigInteger { non_negative: s, magnitude: BigNatural { limbs: z.unsigned_abs().into_limbs_asc() } }
}

/// The greatest common divisor that malachite's `ExtendedGcd` of two `Integer`s returns
/// first (zero for two zeros).
#[verifier::external_body]
pub(crate) fn int_gcd(a: &BigInteger, b: &BigInteger) -> (r: BigNatural)
    ensures
        r@ == nat_gcd(abs(a@), abs(b@)),
{
    let x = Integer::from_sign_and_abs(a.non_negative, Natural::from_limbs_asc(&a.magnitude.limbs));
    let y = Integer::from_sign_and_abs(b.non_negative, Natural::from_limbs_asc(&b.magnitude.limbs));
    let (g, _, _) = (&x).extended_gcd(&y);
    BigNatural { limbs: g.into_limbs_asc() }
}


/// Malachite's `&Integer + &Integer`: the exact sum.
#[verifier::external_body]
pub(crate) fn int_add(a: &BigInteger, b: &BigInteger) -> (r: BigInteger)
    ensures
        r@ == a@ + b@,
{
    let x = Integer::from_sign_and_abs(a.non_negative, Natural::from_limbs_asc(&a.magnitude.limbs));
    let y = Integer::from_sign_and_abs(b.non_negative, Natural::from_limbs_asc(&b.magnitude.limbs));
    let z = &x + &y;
    let s = match z.sign() { Ordering::Less => false, Ordering::Equal => true, Ordering::Greater => true };
    BigInteger { non_negative: s, magnitude: BigNatural { limbs: z.unsigned_abs().into_limbs_asc() } }
}

/// Malachite's `&Integer - &Integer`: the exact difference.
#[verifier::external_body]
pub(crate) fn int_sub(a: &BigInteger, b: &BigInteger) -> (r: BigInteger)
    ensures
        r@ == a@ - b@,
{
    let x = Integer::from_sign_and_abs(a.non_negative, Natural::from_limbs_asc(&a.magnitude.limbs));
    let y = Integer::from_sign_and_abs(b.non_negative, Natural::from_limbs_asc(&b.magnitude.limbs));
    let z = &x - &y;
    let s = match z.sign() { Ordering::Less => false, Ordering::Equal => true, Ordering::Greater => true };
    BigInteger { non_negative: s, magnitude: BigNatural { limbs: z.unsigned_abs().into_limbs_asc() } }
}

/// The remainder of `a` by `b` that takes the sign of `a`: `a` less `b` times the quotient
/// rounded toward zero.
pub open spec fn int_rem_trunc(a: int, b: int) -> int {
    a - b * int_div_trunc(a, b)
}

/// Malachite's `&Integer % &Integer`, which panics on a zero divisor: the remainder with the
/// sign of the dividend.
#[verifier::external_body]
pub(crate) fn int_rem(a: &BigInteger, b: &BigInteger) -> (r: BigInteger)
    requires
        b@ != 0,
    ensures
        r@ == int_rem_trunc(a@, b@),
{
    let x = Integer::from_sign_and_abs(a.non_negative, Natural::from_limbs_asc(&a.magnitude.limbs));
    let y = Integer::from_sign_and_abs(b.non_negative, Natural::from_limbs_asc(&b.magnitude.limbs));
    let z = &x % &y;
    let s = match z.sign() { Ordering::Less => false, Ordering::Equal => true, Ordering::Greater => true };
    BigInteger { non_negative: s, magnitude: BigNatural { limbs: z.unsigned_abs().into_limbs_asc() } }
}

/// Malachite's `Pow<u64>` of a `&Integer`: the exact power (`1` for exponent zero).
#[verifier::external_body]
pub(crate) fn int_pow(a: &BigInteger, e: u64) -> (r: BigInteger)
    ensures
        r@ == pow_u64(a@, e),
{
    let x = Integer::from_sign_and_abs(a.non_negative, Natural::from_limbs_asc(&a.magnitude.limbs));
    let z = (&x).pow(e);
    let s = match z.sign() { Ordering::Less => false, Ordering::Equal => true, Ordering::Greater => true };
    BigInteger { non_negative: s, magnitude: BigNatural { limbs: z.unsigned_abs().into_limbs_asc() } }
}


/// Malachite's `Integer < Integer`: whether `a` is less than `b`.
#[verifier::external_body]
pub(crate) fn int_lt(a: &BigInteger, b: &BigInteger) -> (r: bool)
    ensures
        r == (a@ < b@),
{
    let x = Integer::from_sign_and_abs(a.non_negative, Natural::from_limbs_asc(&a.magnitude.limbs));
    let y = Integer::from_sign_and_abs(b.non_negative, Natural::from_limbs_asc(&b.magnitude.limbs));
    x < y
}

impl BigRational {
    /// The exact sum `self + other`, in lowest terms.
    pub fn plus(&self, other: &BigRational) -> (r: BigRational)
        requires
            wf_rat(*self),
            wf_rat(*other),
        ensures
            wf_rat(r),
            q_eq(r@, q_add(self@, other@)),
            nat_gcd(r.numerator@, r.denominator@) == 1,
    {
        rat_add(self, other)
    }

    /// The exact difference `self - other`.
    pub fn minus(&self, other: &BigRational) -> (r: BigRational)
        requires
            wf_rat(*self),
            wf_rat(*other),
        ensures
            wf_rat(r),
            q_eq(r@, q_sub(self@, other@)),
    {
        rat_sub(self, other)
    }

    /// The exact product `self * other`.
    pub fn times(&self, other: &BigRational) -> (r: BigRational)
        requires
            wf_rat(*self),
            wf_rat(*other),
        ensures
            wf_rat(r),
            q_eq(r@, q_mul(self@, other@)),
    {
        rat_mul(self, other)
    }

    /// The exact quotient `self / other`, for a nonzero `other`.
    pub fn divided_by(&self, other: &BigRational) -> (r: BigRational)
        requires
            wf_rat(*self),
            wf_rat(*other),
            other@.n != 0,
        ensures
            wf_rat(r),
            q_eq(r@, q_div(self@, other@)),
    {
        rat_div(self, other)
    }

    /// Whether both are the same number.
    pub fn equals(&self, other: &BigRational) -> (r: bool)
        requires
            wf_rat(*self),
            wf_rat(*other),
        ensures
            r == q_eq(self@, other@),
    {
        rat_eq(self, other)
    }

    /// Whether `self < other`.
    pub fn less_than(&self, other: &BigRational) -> (r: bool)
        requires
            wf_rat(*self),
            wf_rat(*other),
        ensures
            r == q_lt(self@, other@),
    {
        rat_lt(self, other)
    }

    /// The greatest integer not above `self`.
    pub fn floor(&self) -> (r: BigInteger)
        requires
            wf_rat(*self),
        ensures
            r@ == q_floor(self@),
    {
        rat_floor(self)
    }

    /// The least integer not below `self`.
    pub fn ceiling(&self) -> (r: BigInteger)
        requires
            wf_rat(*self),
        ensures
            r@ == q_ceiling(self@),
    {
        rat_ceiling(self)
    }
}

impl BigInteger {
    /// `self + other`.
    pub fn plus(&self, other: &BigInteger) -> (r: BigInteger)
        ensures
            r@ == self@ + other@,
    {
        int_add(self, other)
    }

    /// `self - other`.
    pub fn minus(&self, other: &BigInteger) -> (r: BigInteger)
        ensures
            r@ == self@ - other@,
    {
        int_sub(self, other)
    }

    /// `self * other`.
    pub fn times(&self, other: &BigInteger) -> (r: BigInteger)
        ensures
            r@ == self@ * other@,
    {
        int_mul(self, other)
    }

    /// `self / other`, rounded toward zero, for a nonzero `other`.
    pub fn quotient(&self, other: &BigInteger) -> (r: BigInteger)
        requires
            other@ != 0,
        ensures
            r@ == int_div_trunc(self@, other@),
    {
        int_div(self, other)
    }

    /// The remainder of `self / other`, with the sign of `self`, for a nonzero `other`.
    pub fn remainder(&self, other: &BigInteger) -> (r: BigInteger)
        requires
            other@ != 0,
        ensures
            r@ == int_rem_trunc(self@, other@),
    {
        int_rem(self, other)
    }

    /// `self` to the power `e`.
    pub fn power(&self, e: u64) -> (r: BigInteger)
        ensures
            r@ == pow_u64(self@, e),
    {
        int_pow(self, e)
    }

    /// The greatest common divisor of the magnitudes.
    pub fn gcd(&self, other: &BigInteger) -> (r: BigNatural)
        ensures
            r@ == nat_gcd(abs(self@), abs(other@)),
    {
        int_gcd(self, other)
    }

    /// Whether `self < other`.
    pub fn less_than(&self, other: &BigInteger) -> (r: bool)
        ensures
            r == (self@ < other@),
    {
        int_lt(self, other)
    }
}

} // verus!
