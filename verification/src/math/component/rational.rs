//! Arbitrary-precision numbers held as plain values (sign and little-endian 64-bit limbs);
//! the arithmetic that needs arbitrary precision is done by malachite.
use vstd::prelude::*;

verus! {

/// The value of little-endian base-2^64 limbs.
pub open spec fn limbs_val(s: Seq<u64>) -> nat
    decreases s.len(),
{
    if s.len() == 0 {
        0
    } else {
        s[0] as nat + 0x1_0000_0000_0000_0000 * limbs_val(s.drop_first())
    }
}

/// A rational number `n / d` (meaningful for `d > 0`).
pub struct Q {
    pub n: int,
    pub d: int,
}

/// Both rationals are the same number.
pub open spec fn q_eq(a: Q, b: Q) -> bool {
    a.n * b.d == b.n * a.d
}

pub open spec fn q_int(i: int) -> Q {
    Q { n: i, d: 1 }
}

pub open spec fn q_add(a: Q, b: Q) -> Q {
    Q { n: a.n * b.d + b.n * a.d, d: a.d * b.d }
}

pub open spec fn q_sub(a: Q, b: Q) -> Q {
    Q { n: a.n * b.d - b.n * a.d, d: a.d * b.d }
}

pub open spec fn q_neg(a: Q) -> Q {
    Q { n: -a.n, d: a.d }
}

pub open spec fn q_mul(a: Q, b: Q) -> Q {
    Q { n: a.n * b.n, d: a.d * b.d }
}

/// `a / b`, for `b` nonzero, with a positive denominator.
pub open spec fn q_div(a: Q, b: Q) -> Q {
    if b.n >= 0 {
        Q { n: a.n * b.d, d: a.d * b.n }
    } else {
        Q { n: -(a.n * b.d), d: -(a.d * b.n) }
    }
}

/// `a < b` (for positive denominators).
pub open spec fn q_lt(a: Q, b: Q) -> bool {
    a.n * b.d < b.n * a.d
}

/// The greatest integer not above `a` (for a positive denominator).
pub open spec fn q_floor(a: Q) -> int {
    a.n / a.d
}

/// The least integer not below `a` (for a positive denominator).
pub open spec fn q_ceiling(a: Q) -> int {
    -((-a.n) / a.d)
}

/// The greatest common divisor, by Euclid's algorithm (`gcd(0, 0) == 0`).
pub open spec fn nat_gcd(a: nat, b: nat) -> nat
    decreases b,
{
    if b == 0 {
        a
    } else {
        nat_gcd(b, a % b)
    }
}

/// `a` to the power `e`.
pub open spec fn pow_u64(a: int, e: u64) -> int {
    vstd::arithmetic::power::pow(a, e as nat)
}

/// The absolute value of an integer.
pub open spec fn abs(x: int) -> nat {
    if x >= 0 {
        x as nat
    } else {
        (-x) as nat
    }
}

/// A natural number as little-endian 64-bit limbs.
#[derive(Debug)]
pub struct BigNatural {
    pub limbs: Vec<u64>,
}

impl Clone for BigNatural {
    fn clone(&self) -> (r: BigNatural)
        ensures
            r@ == self@,
    {
        let limbs = self.limbs.clone();
        proof {
            assert(limbs@ =~= self.limbs@);
        }
        BigNatural { limbs }
    }
}

impl Clone for BigInteger {
    fn clone(&self) -> (r: BigInteger)
        ensures
            r@ == self@,
    {
        BigInteger { non_negative: self.non_negative, magnitude: self.magnitude.clone() }
    }
}

impl Clone for BigRational {
    fn clone(&self) -> (r: BigRational)
        ensures
            r@ == self@,
    {
        BigRational {
            non_negative: self.non_negative,
            numerator: self.numerator.clone(),
            denominator: self.denominator.clone(),
        }
    }
}

impl View for BigNatural {
    type V = nat;

    open spec fn view(&self) -> nat {
        limbs_val(self.limbs@)
    }
}

/// An integer as a sign (`true` for non-negative) and a magnitude.
#[derive(Debug)]
pub struct BigInteger {
    pub non_negative: bool,
    pub magnitude: BigNatural,
}

impl View for BigInteger {
    type V = int;

    open spec fn view(&self) -> int {
        if self.non_negative {
            self.magnitude@ as int
        } else {
            -(self.magnitude@ as int)
        }
    }
}

/// A rational number as a sign (`true` for non-negative), a numerator and a denominator.
#[derive(Debug)]
pub struct BigRational {
    pub non_negative: bool,
    pub numerator: BigNatural,
    pub denominator: BigNatural,
}

impl View for BigRational {
    type V = Q;

    open spec fn view(&self) -> Q {
        Q {
            n: if self.non_negative {
                self.numerator@ as int
            } else {
                -(self.numerator@ as int)
            },
            d: self.denominator@ as int,
        }
    }
}

impl BigNatural {
    /// The number zero.
    pub fn zero() -> (r: BigNatural)
        ensures
            r@ == 0,
    {
        BigNatural { limbs: Vec::new() }
    }

    /// A natural number of one limb.
    pub fn from_u64(x: u64) -> (r: BigNatural)
        ensures
            r@ == x as nat,
    {
        let mut limbs = Vec::new();
        limbs.push(x);
        let r = BigNatural { limbs };
        proof {
            assert(r.limbs@.drop_first() =~= Seq::<u64>::empty());
            reveal_with_fuel(limbs_val, 2);
        }
        r
    }

    /// Whether the number is zero.
    pub fn is_zero(&self) -> (b: bool)
        ensures
            b == (self@ == 0),
    {
        let mut i: usize = 0;
        while i < self.limbs.len()
            invariant
                i <= self.limbs.len(),
                forall|j: int| 0 <= j < i ==> self.limbs@[j] == 0,
            decreases self.limbs.len() - i,
        {
            if self.limbs[i] != 0 {
                proof {
                    lemma_limbs_nonzero(self.limbs@, i as int);
                }
                return false;
            }
            i = i + 1;
        }
        proof {
            lemma_limbs_all_zero(self.limbs@);
        }
        true
    }
}

proof fn lemma_limbs_nonzero(s: Seq<u64>, i: int)
    requires
        0 <= i < s.len(),
        s[i] != 0,
    ensures
        limbs_val(s) > 0,
    decreases s.len(),
{
    if i > 0 {
        lemma_limbs_nonzero(s.drop_first(), i - 1);
    }
}

proof fn lemma_limbs_all_zero(s: Seq<u64>)
    requires
        forall|j: int| 0 <= j < s.len() ==> s[j] == 0,
    ensures
        limbs_val(s) == 0,
    decreases s.len(),
{
    if s.len() > 0 {
        assert forall|j: int| 0 <= j < s.drop_first().len() implies s.drop_first()[j] == 0 by {
            assert(s.drop_first()[j] == s[j + 1]);
        }
        lemma_limbs_all_zero(s.drop_first());
    }
}

impl BigInteger {
    /// An integer from a 64-bit signed integer.
    pub fn from_i64(x: i64) -> (r: BigInteger)
        ensures
            r@ == x as int,
    {
        if x >= 0 {
            BigInteger { non_negative: true, magnitude: BigNatural::from_u64(x as u64) }
        } else {
            let m = (0i128 - x as i128) as u64;
            BigInteger { non_negative: false, magnitude: BigNatural::from_u64(m) }
        }
    }

    /// An integer from a 128-bit signed integer.
    pub fn from_i128(x: i128) -> (r: BigInteger)
        ensures
            r@ == x as int,
    {
        let neg = x < 0;
        let m: u128 = if neg {
            ((-(x + 1)) as u128) + 1
        } else {
            x as u128
        };
        let lo = (m % 0x1_0000_0000_0000_0000u128) as u64;
        let hi = (m / 0x1_0000_0000_0000_0000u128) as u64;
        let mut limbs = Vec::new();
        limbs.push(lo);
        limbs.push(hi);
        let r = BigInteger { non_negative: !neg, magnitude: BigNatural { limbs } };
        proof {
            let s = r.magnitude.limbs@;
            assert(s.drop_first().drop_first() =~= Seq::<u64>::empty());
            reveal_with_fuel(limbs_val, 3);
            assert(limbs_val(s.drop_first()) == hi as nat);
            assert(m == hi as nat * 0x1_0000_0000_0000_0000 + lo as nat);
        }
        r
    }

    /// Whether the integer is zero.
    pub fn is_zero(&self) -> (b: bool)
        ensures
            b == (self@ == 0),
    {
        self.magnitude.is_zero()
    }
}

/// Well-formed: a positive denominator.
pub open spec fn wf_rat(r: BigRational) -> bool {
    r.denominator@ > 0
}

impl BigRational {
    /// The integer `i` as a rational.
    pub fn from_integer(i: BigInteger) -> (r: BigRational)
        ensures
            wf_rat(r),
            r@ == q_int(i@),
    {
        BigRational {
            non_negative: i.non_negative,
            numerator: i.magnitude,
            denominator: BigNatural::from_u64(1),
        }
    }

    /// The integer `x` as a rational.
    pub fn from_i64(x: i64) -> (r: BigRational)
        ensures
            wf_rat(r),
            r@ == q_int(x as int),
    {
        BigRational::from_integer(BigInteger::from_i64(x))
    }

    /// The rational `n / d` of two machine integers, `d` positive.
    pub fn from_signeds(n: i64, d: i64) -> (r: BigRational)
        requires
            d > 0,
        ensures
            wf_rat(r),
            r@ == (Q { n: n as int, d: d as int }),
    {
        let i = BigInteger::from_i64(n);
        BigRational {
            non_negative: i.non_negative,
            numerator: i.magnitude,
            denominator: BigNatural::from_u64(d as u64),
        }
    }

    /// The number zero.
    pub fn zero() -> (r: BigRational)
        ensures
            wf_rat(r),
            r@ == q_int(0),
    {
        BigRational::from_i64(0)
    }

    /// The number one.
    pub fn one() -> (r: BigRational)
        ensures
            wf_rat(r),
            r@ == q_int(1),
    {
        BigRational::from_i64(1)
    }

    /// Whether the number is zero.
    pub fn is_zero(&self) -> (b: bool)
        ensures
            b == (self@.n == 0),
    {
        self.numerator.is_zero()
    }

    /// Whether the number is positive.
    pub fn is_positive(&self) -> (b: bool)
        requires
            wf_rat(*self),
        ensures
            b == (self@.n > 0),
    {
        self.non_negative && !self.numerator.is_zero()
    }

    /// Whether the number is negative.
    pub fn is_negative(&self) -> (b: bool)
        requires
            wf_rat(*self),
        ensures
            b == (self@.n < 0),
    {
        !self.non_negative && !self.numerator.is_zero()
    }

    /// The absolute value `|self|`.
    pub fn abs(&self) -> (r: BigRational)
        requires
            wf_rat(*self),
        ensures
            wf_rat(r),
            r@ == (Q { n: abs(self@.n) as int, d: self@.d }),
    {
        BigRational { non_negative: true, numerator: self.numerator.clone(), denominator: self.denominator.clone() }
    }

    /// The negation `-self`.
    pub fn neg(&self) -> (r: BigRational)
        requires
            wf_rat(*self),
        ensures
            wf_rat(r),
            r@ == q_neg(self@),
    {
        BigRational {
            non_negative: !self.non_negative,
            numerator: self.numerator.clone(),
            denominator: self.denominator.clone(),
        }
    }
}


// ---------------------------------------------------------------------------
// Laws of rational arithmetic over the (numerator, denominator) pairs
// ---------------------------------------------------------------------------

/// A rational with a positive denominator.
pub open spec fn q_wf(a: Q) -> bool {
    a.d > 0
}

/// The sum of the `n` first products `a[i] * b[i]`.
pub open spec fn q_dot(a: Seq<Q>, b: Seq<Q>, n: nat) -> Q
    decreases n,
{
    if n == 0 {
        q_int(0)
    } else {
        q_add(q_dot(a, b, (n - 1) as nat), q_mul(a[n - 1], b[n - 1]))
    }
}

pub proof fn lemma_q_eq_trans(a: Q, b: Q, c: Q)
    requires
        q_eq(a, b),
        q_eq(b, c),
        b.d > 0,
    ensures
        q_eq(a, c),
{
    assert((a.n * c.d - c.n * a.d) * b.d == 0) by (nonlinear_arith)
        requires
            a.n * b.d == b.n * a.d,
            b.n * c.d == c.n * b.d,
    ;
    vstd::arithmetic::mul::lemma_mul_nonzero(a.n * c.d - c.n * a.d, b.d);
}

pub proof fn lemma_q_ops_wf(a: Q, b: Q)
    requires
        q_wf(a),
        q_wf(b),
    ensures
        q_wf(q_add(a, b)),
        q_wf(q_sub(a, b)),
        q_wf(q_mul(a, b)),
        b.n != 0 ==> q_wf(q_div(a, b)),
        q_wf(q_neg(a)),
{
    vstd::arithmetic::mul::lemma_mul_strictly_positive(a.d, b.d);
    if b.n > 0 {
        vstd::arithmetic::mul::lemma_mul_strictly_positive(a.d, b.n);
    } else if b.n < 0 {
        vstd::arithmetic::mul::lemma_mul_strictly_positive(a.d, -b.n);
        assert(-(a.d * b.n) == a.d * (-b.n)) by (nonlinear_arith);
    }
}

/// The cross terms of two pairs of equal rationals agree.
proof fn lemma_cross_terms(x: Q, xx: Q, y: Q, yy: Q)
    requires
        x.n * xx.d == xx.n * x.d,
        y.n * yy.d == yy.n * y.d,
    ensures
        x.n * y.d * (xx.d * yy.d) == xx.n * yy.d * (x.d * y.d),
        y.n * x.d * (xx.d * yy.d) == yy.n * xx.d * (x.d * y.d),
{
    let p = x.n * xx.d;
    let q = y.d * yy.d;
    assert(x.n * y.d * (xx.d * yy.d) == p * q) by (nonlinear_arith)
        requires
            p == x.n * xx.d,
            q == y.d * yy.d,
    ;
    assert(xx.n * yy.d * (x.d * y.d) == (xx.n * x.d) * q) by (nonlinear_arith)
        requires
            q == y.d * yy.d,
    ;
    let p2 = y.n * yy.d;
    let q2 = x.d * xx.d;
    assert(y.n * x.d * (xx.d * yy.d) == p2 * q2) by (nonlinear_arith)
        requires
            p2 == y.n * yy.d,
            q2 == x.d * xx.d,
    ;
    assert(yy.n * xx.d * (x.d * y.d) == (yy.n * y.d) * q2) by (nonlinear_arith)
        requires
            q2 == x.d * xx.d,
    ;
}

pub proof fn lemma_q_add_cong(x: Q, xx: Q, y: Q, yy: Q)
    requires
        q_eq(x, xx),
        q_eq(y, yy),
    ensures
        q_eq(q_add(x, y), q_add(xx, yy)),
{
    lemma_cross_terms(x, xx, y, yy);
    assert((x.n * y.d + y.n * x.d) * (xx.d * yy.d) == x.n * y.d * (xx.d * yy.d) + y.n * x.d * (xx.d
        * yy.d)) by (nonlinear_arith);
    assert((xx.n * yy.d + yy.n * xx.d) * (x.d * y.d) == xx.n * yy.d * (x.d * y.d) + yy.n * xx.d * (
    x.d * y.d)) by (nonlinear_arith);
}

pub proof fn lemma_q_sub_cong(x: Q, xx: Q, y: Q, yy: Q)
    requires
        q_eq(x, xx),
        q_eq(y, yy),
    ensures
        q_eq(q_sub(x, y), q_sub(xx, yy)),
{
    lemma_cross_terms(x, xx, y, yy);
    assert((x.n * y.d - y.n * x.d) * (xx.d * yy.d) == x.n * y.d * (xx.d * yy.d) - y.n * x.d * (xx.d
        * yy.d)) by (nonlinear_arith);
    assert((xx.n * yy.d - yy.n * xx.d) * (x.d * y.d) == xx.n * yy.d * (x.d * y.d) - yy.n * xx.d * (
    x.d * y.d)) by (nonlinear_arith);
}

pub proof fn lemma_q_mul_cong(x: Q, xx: Q, y: Q, yy: Q)
    requires
        q_eq(x, xx),
        q_eq(y, yy),
    ensures
        q_eq(q_mul(x, y), q_mul(xx, yy)),
{
    let p = x.n * xx.d;
    let q = y.n * yy.d;
    assert((x.n * y.n) * (xx.d * yy.d) == p * q) by (nonlinear_arith)
        requires
            p == x.n * xx.d,
            q == y.n * yy.d,
    ;
    assert((xx.n * yy.n) * (x.d * y.d) == (xx.n * x.d) * (yy.n * y.d)) by (nonlinear_arith);
}

pub proof fn lemma_q_div_cong(x: Q, xx: Q, y: Q, yy: Q)
    requires
        q_eq(x, xx),
        q_eq(y, yy),
        y.d > 0,
        yy.d > 0,
        y.n != 0,
    ensures
        yy.n != 0,
        q_eq(q_div(x, y), q_div(xx, yy)),
{
    if y.n > 0 {
        vstd::arithmetic::mul::lemma_mul_strictly_positive(y.n, yy.d);
        if yy.n <= 0 {
            vstd::arithmetic::mul::lemma_mul_nonnegative(-yy.n, y.d);
            assert((-yy.n) * y.d == -(yy.n * y.d)) by (nonlinear_arith);
        }
    } else {
        vstd::arithmetic::mul::lemma_mul_strictly_positive(-y.n, yy.d);
        assert((-y.n) * yy.d == -(y.n * yy.d)) by (nonlinear_arith);
        if yy.n >= 0 {
            vstd::arithmetic::mul::lemma_mul_nonnegative(yy.n, y.d);
        }
    }
    let p = x.n * xx.d;
    let q = y.d * yy.n;
    assert((x.n * y.d) * (xx.d * yy.n) == p * q) by (nonlinear_arith)
        requires
            p == x.n * xx.d,
            q == y.d * yy.n,
    ;
    assert((xx.n * yy.d) * (x.d * y.n) == (xx.n * x.d) * (y.n * yy.d)) by (nonlinear_arith);
    assert(p == xx.n * x.d);
    assert(q == y.n * yy.d) by (nonlinear_arith)
        requires
            q == y.d * yy.n,
            y.n * yy.d == yy.n * y.d,
    ;
    let a = x.n * y.d;
    let b = xx.d * yy.n;
    let c = xx.n * yy.d;
    let d = x.d * y.n;
    assert(a * b == c * d);
    if y.n < 0 {
        assert((-a) * (-b) == c * d) by (nonlinear_arith)
            requires
                a * b == c * d,
        ;
        assert((-c) * (-d) == c * d) by (nonlinear_arith);
    }
}

/// The partial sums of products have positive denominators.
pub proof fn lemma_q_dot_wf(a: Seq<Q>, b: Seq<Q>, n: nat)
    requires
        n <= a.len(),
        n <= b.len(),
        forall|i: int| 0 <= i < a.len() ==> q_wf(#[trigger] a[i]),
        forall|i: int| 0 <= i < b.len() ==> q_wf(#[trigger] b[i]),
    ensures
        q_wf(q_dot(a, b, n)),
    decreases n,
{
    if n > 0 {
        lemma_q_dot_wf(a, b, (n - 1) as nat);
        lemma_q_ops_wf(a[n - 1], b[n - 1]);
        lemma_q_ops_wf(q_dot(a, b, (n - 1) as nat), q_mul(a[n - 1], b[n - 1]));
    }
}

/// Multiplication commutes.
pub proof fn lemma_q_mul_comm(a: Q, b: Q)
    ensures
        q_eq(q_mul(a, b), q_mul(b, a)),
{
    assert(a.n * b.n * (b.d * a.d) == b.n * a.n * (a.d * b.d)) by (nonlinear_arith);
}

/// Subtracting `m` from `init - s` subtracts `s + m` from `init`, up to equal rationals.
pub proof fn lemma_q_sub_accumulate(new: Q, old: Q, t: Q, init: Q, s: Q, m: Q)
    requires
        q_wf(new),
        q_wf(old),
        q_wf(t),
        q_wf(init),
        q_wf(s),
        q_wf(m),
        q_eq(new, q_sub(old, t)),
        q_eq(old, q_sub(init, s)),
        q_eq(t, m),
    ensures
        q_eq(new, q_sub(init, q_add(s, m))),
{
    lemma_q_ops_wf(old, t);
    lemma_q_ops_wf(init, s);
    lemma_q_ops_wf(q_sub(init, s), m);
    lemma_q_sub_cong(old, q_sub(init, s), t, m);
    lemma_q_eq_trans(new, q_sub(old, t), q_sub(q_sub(init, s), m));
    let x = q_sub(q_sub(init, s), m);
    let y = q_sub(init, q_add(s, m));
    let (a, ad, b, bd, c, cd) = (init.n, init.d, s.n, s.d, m.n, m.d);
    assert((a * bd - b * ad) * cd == a * bd * cd - b * ad * cd) by (nonlinear_arith);
    assert(c * (ad * bd) == c * bd * ad) by (nonlinear_arith);
    assert((b * cd + c * bd) * ad == b * cd * ad + c * bd * ad) by (nonlinear_arith);
    assert(a * (bd * cd) == a * bd * cd) by (nonlinear_arith);
    assert(b * ad * cd == b * cd * ad) by (nonlinear_arith);
    assert(ad * bd * cd == ad * (bd * cd)) by (nonlinear_arith);
    assert(x.n == y.n && x.d == y.d);
    lemma_q_eq_trans(new, x, y);
}

/// Adding `m` to `init + s` adds `s + m` to `init`, up to equal rationals.
pub proof fn lemma_q_add_accumulate(new: Q, old: Q, t: Q, init: Q, s: Q, m: Q)
    requires
        q_wf(new),
        q_wf(old),
        q_wf(t),
        q_wf(init),
        q_wf(s),
        q_wf(m),
        q_eq(new, q_add(old, t)),
        q_eq(old, q_add(init, s)),
        q_eq(t, m),
    ensures
        q_eq(new, q_add(init, q_add(s, m))),
{
    lemma_q_ops_wf(old, t);
    lemma_q_ops_wf(init, s);
    lemma_q_ops_wf(q_add(init, s), m);
    lemma_q_add_cong(old, q_add(init, s), t, m);
    lemma_q_eq_trans(new, q_add(old, t), q_add(q_add(init, s), m));
    let x = q_add(q_add(init, s), m);
    let y = q_add(init, q_add(s, m));
    let (a, ad, b, bd, c, cd) = (init.n, init.d, s.n, s.d, m.n, m.d);
    assert((a * bd + b * ad) * cd == a * bd * cd + b * ad * cd) by (nonlinear_arith);
    assert(c * (ad * bd) == c * bd * ad) by (nonlinear_arith);
    assert((b * cd + c * bd) * ad == b * cd * ad + c * bd * ad) by (nonlinear_arith);
    assert(a * (bd * cd) == a * bd * cd) by (nonlinear_arith);
    assert(b * ad * cd == b * cd * ad) by (nonlinear_arith);
    assert(ad * bd * cd == ad * (bd * cd)) by (nonlinear_arith);
    assert(x.n == y.n && x.d == y.d);
    lemma_q_eq_trans(new, x, y);
}

/// Two rationals with the same numerator and denominator are equal.
proof fn lemma_q_same(a: Q, b: Q)
    requires
        a.n == b.n,
        a.d == b.d,
    ensures
        q_eq(a, b),
{
}

/// `(p s) z == (p z) s`.
pub proof fn lemma_q_mul_swap(p: Q, s: Q, z: Q)
    ensures
        q_eq(q_mul(q_mul(p, s), z), q_mul(q_mul(p, z), s)),
{
    assert((p.n * s.n) * z.n == (p.n * z.n) * s.n) by (nonlinear_arith);
    assert((p.d * s.d) * z.d == (p.d * z.d) * s.d) by (nonlinear_arith);
    lemma_q_same(q_mul(q_mul(p, s), z), q_mul(q_mul(p, z), s));
}

/// `y s + w s == (y + w) s`.
pub proof fn lemma_q_add_mul(y: Q, w: Q, s: Q)
    ensures
        q_eq(q_add(q_mul(y, s), q_mul(w, s)), q_mul(q_add(y, w), s)),
{
    let l = q_add(q_mul(y, s), q_mul(w, s));
    let r = q_mul(q_add(y, w), s);
    let k = y.n * w.d + w.n * y.d;
    assert((y.n * s.n) * (w.d * s.d) == (s.n * s.d) * (y.n * w.d)) by (nonlinear_arith);
    assert((w.n * s.n) * (y.d * s.d) == (s.n * s.d) * (w.n * y.d)) by (nonlinear_arith);
    assert(l.n == (s.n * s.d) * k) by (nonlinear_arith)
        requires
            l.n == (y.n * s.n) * (w.d * s.d) + (w.n * s.n) * (y.d * s.d),
            (y.n * s.n) * (w.d * s.d) == (s.n * s.d) * (y.n * w.d),
            (w.n * s.n) * (y.d * s.d) == (s.n * s.d) * (w.n * y.d),
            k == y.n * w.d + w.n * y.d,
    ;
    assert(l.d == s.d * ((y.d * w.d) * s.d)) by (nonlinear_arith)
        requires
            l.d == (y.d * s.d) * (w.d * s.d),
    ;
    assert(r.n == k * s.n && r.d == (y.d * w.d) * s.d);
    let dd = (y.d * w.d) * s.d;
    assert(l.n * r.d == r.n * l.d) by (nonlinear_arith)
        requires
            l.n == (s.n * s.d) * k,
            l.d == s.d * dd,
            r.n == k * s.n,
            r.d == dd,
    ;
}

/// `(a - m) z == a z - m z`.
pub proof fn lemma_q_sub_mul(a: Q, m: Q, z: Q)
    ensures
        q_eq(q_mul(q_sub(a, m), z), q_sub(q_mul(a, z), q_mul(m, z))),
{
    let l = q_mul(q_sub(a, m), z);
    let r = q_sub(q_mul(a, z), q_mul(m, z));
    let k = a.n * m.d - m.n * a.d;
    assert(l.n == k * z.n && l.d == (a.d * m.d) * z.d);
    assert((a.n * z.n) * (m.d * z.d) == (z.n * z.d) * (a.n * m.d)) by (nonlinear_arith);
    assert((m.n * z.n) * (a.d * z.d) == (z.n * z.d) * (m.n * a.d)) by (nonlinear_arith);
    assert(r.n == (z.n * z.d) * k) by (nonlinear_arith)
        requires
            r.n == (a.n * z.n) * (m.d * z.d) - (m.n * z.n) * (a.d * z.d),
            (a.n * z.n) * (m.d * z.d) == (z.n * z.d) * (a.n * m.d),
            (m.n * z.n) * (a.d * z.d) == (z.n * z.d) * (m.n * a.d),
            k == a.n * m.d - m.n * a.d,
    ;
    assert(r.d == z.d * ((a.d * m.d) * z.d)) by (nonlinear_arith)
        requires
            r.d == (a.d * z.d) * (m.d * z.d),
    ;
    let dd = (a.d * m.d) * z.d;
    assert(l.n * r.d == r.n * l.d) by (nonlinear_arith)
        requires
            l.n == k * z.n,
            l.d == dd,
            r.n == (z.n * z.d) * k,
            r.d == z.d * dd,
    ;
}

/// `(x - y) + (a - b) == (x + a) - (y + b)`.
pub proof fn lemma_q_add_sub_swap(x: Q, y: Q, a: Q, b: Q)
    ensures
        q_eq(q_add(q_sub(x, y), q_sub(a, b)), q_sub(q_add(x, a), q_add(y, b))),
{
    let l = q_add(q_sub(x, y), q_sub(a, b));
    let r = q_sub(q_add(x, a), q_add(y, b));
    let p = x.n * y.d - y.n * x.d;
    let q = a.n * b.d - b.n * a.d;
    assert(l.n == p * (a.d * b.d) + q * (x.d * y.d));
    assert(l.d == (x.d * y.d) * (a.d * b.d));
    assert(p * (a.d * b.d) == x.n * y.d * a.d * b.d - y.n * x.d * a.d * b.d) by (nonlinear_arith)
        requires
            p == x.n * y.d - y.n * x.d,
    ;
    assert(q * (x.d * y.d) == a.n * b.d * x.d * y.d - b.n * a.d * x.d * y.d) by (nonlinear_arith)
        requires
            q == a.n * b.d - b.n * a.d,
    ;
    let u = x.n * a.d + a.n * x.d;
    let v = y.n * b.d + b.n * y.d;
    assert(r.n == u * (y.d * b.d) - v * (x.d * a.d));
    assert(r.d == (x.d * a.d) * (y.d * b.d));
    let e = y.d * b.d;
    let f = x.d * a.d;
    vstd::arithmetic::mul::lemma_mul_is_distributive_add_other_way(e, x.n * a.d, a.n * x.d);
    vstd::arithmetic::mul::lemma_mul_is_distributive_add_other_way(f, y.n * b.d, b.n * y.d);
    assert((x.n * a.d) * e == x.n * y.d * a.d * b.d) by (nonlinear_arith)
        requires
            e == y.d * b.d,
    ;
    assert((a.n * x.d) * e == a.n * b.d * x.d * y.d) by (nonlinear_arith)
        requires
            e == y.d * b.d,
    ;
    assert((y.n * b.d) * f == y.n * x.d * a.d * b.d) by (nonlinear_arith)
        requires
            f == x.d * a.d,
    ;
    assert((b.n * y.d) * f == b.n * a.d * x.d * y.d) by (nonlinear_arith)
        requires
            f == x.d * a.d,
    ;
    assert(l.n == r.n);
    assert(l.d == r.d) by (nonlinear_arith)
        requires
            l.d == (x.d * y.d) * (a.d * b.d),
            r.d == (x.d * a.d) * (y.d * b.d),
    ;
    lemma_q_same(l, r);
}

/// Equal rationals have the same ceiling.
pub proof fn lemma_q_ceiling_cong(a: Q, aa: Q)
    requires
        q_eq(a, aa),
        a.d > 0,
        aa.d > 0,
    ensures
        q_ceiling(a) == q_ceiling(aa),
{
    lemma_q_neg_cong(a, aa);
    lemma_q_floor_cong(q_neg(a), q_neg(aa));
}

/// A quotient by a nonzero rational is zero exactly where the dividend is.
pub proof fn lemma_q_div_zero(a: Q, v: Q)
    requires
        q_wf(a),
        q_wf(v),
        v.n != 0,
    ensures
        (q_div(a, v).n == 0) == (a.n == 0),
{
    if a.n != 0 {
        vstd::arithmetic::mul::lemma_mul_nonzero(a.n, v.d);
    }
}

/// Multiplying by minus one negates.
pub proof fn lemma_q_mul_minus_one(a: Q)
    ensures
        q_eq(q_mul(a, q_int(-1)), q_neg(a)),
{
    assert((a.n * -1) * a.d == (-a.n) * (a.d * 1)) by (nonlinear_arith);
}

/// Subtracting zero changes nothing, up to equal rationals.
pub proof fn lemma_q_sub_int_zero(a: Q)
    requires
        q_wf(a),
    ensures
        q_eq(a, q_sub(a, q_int(0))),
        q_eq(q_sub(q_int(0), a), q_neg(a)),
        q_eq(a, q_add(a, q_int(0))),
        q_eq(a, q_mul(q_int(1), a)),
{
    assert(a.n * (a.d * 1) == (a.n * 1 + 0 * a.d) * a.d) by (nonlinear_arith);
    assert(a.n * (1 * a.d) == (1 * a.n) * a.d) by (nonlinear_arith);
    assert(a.n * (a.d * 1) == (a.n * 1 - 0 * a.d) * a.d) by (nonlinear_arith);
    assert((0 * a.d - a.n * 1) * a.d == (-a.n) * (1 * a.d)) by (nonlinear_arith);
}

/// The rational is zero.
pub open spec fn q_is_zero(a: Q) -> bool {
    a.n == 0
}

/// The rational is one.
pub open spec fn q_is_one(a: Q) -> bool {
    a.n == a.d
}

/// Equal rationals agree on being zero and on being one.
pub proof fn lemma_q_eq_zero_one(a: Q, b: Q)
    requires
        q_eq(a, b),
        q_wf(a),
        q_wf(b),
    ensures
        q_is_zero(a) == q_is_zero(b),
        q_is_one(a) == q_is_one(b),
{
    if a.n == 0 {
        vstd::arithmetic::mul::lemma_mul_nonzero(b.n, a.d);
    }
    if b.n == 0 {
        vstd::arithmetic::mul::lemma_mul_nonzero(a.n, b.d);
    }
    if a.n == a.d {
        assert((b.n - b.d) * a.d == 0) by (nonlinear_arith)
            requires
                a.n * b.d == b.n * a.d,
                a.n == a.d,
        ;
        vstd::arithmetic::mul::lemma_mul_nonzero(b.n - b.d, a.d);
    }
    if b.n == b.d {
        assert((a.n - a.d) * b.d == 0) by (nonlinear_arith)
            requires
                a.n * b.d == b.n * a.d,
                b.n == b.d,
        ;
        vstd::arithmetic::mul::lemma_mul_nonzero(a.n - a.d, b.d);
    }
}

/// Zero divided by a nonzero number is zero; a nonzero number divided by itself is one.
pub proof fn lemma_q_div_facts(a: Q, v: Q)
    requires
        q_wf(a),
        q_wf(v),
        v.n != 0,
    ensures
        q_is_zero(a) ==> q_is_zero(q_div(a, v)),
        q_is_one(q_div(v, v)),
{
    if v.n > 0 {
        assert(v.n * v.d == v.d * v.n) by (nonlinear_arith);
    } else {
        assert(-(v.n * v.d) == -(v.d * v.n)) by (nonlinear_arith);
    }
}

/// Zero times anything is zero.
pub proof fn lemma_q_mul_zero(z: Q, s: Q)
    requires
        q_is_zero(z),
    ensures
        q_is_zero(q_mul(z, s)),
{
}

/// Subtracting zero leaves a number unchanged.
pub proof fn lemma_q_sub_zero(x: Q, m: Q)
    requires
        q_is_zero(m),
        q_wf(m),
    ensures
        q_eq(q_sub(x, m), x),
{
    assert((x.n * m.d - m.n * x.d) * x.d == x.n * (x.d * m.d)) by (nonlinear_arith)
        requires
            m.n == 0,
    ;
}

/// `s - 1 * s` is zero.
pub proof fn lemma_q_sub_one_mul(s: Q, o: Q)
    requires
        q_is_one(o),
    ensures
        q_is_zero(q_sub(s, q_mul(o, s))),
{
    assert(s.n * (o.d * s.d) - (o.n * s.n) * s.d == 0) by (nonlinear_arith)
        requires
            o.n == o.d,
    ;
}


/// `<` gives the same answer on equal rationals.
pub proof fn lemma_q_lt_cong(a: Q, aa: Q, b: Q, bb: Q)
    requires
        q_eq(a, aa),
        q_eq(b, bb),
        a.d > 0,
        aa.d > 0,
        b.d > 0,
        bb.d > 0,
    ensures
        q_lt(a, b) == q_lt(aa, bb),
{
    let p = aa.d * bb.d;
    let q = a.d * b.d;
    assert(p > 0 && q > 0) by (nonlinear_arith)
        requires
            a.d > 0,
            aa.d > 0,
            b.d > 0,
            bb.d > 0,
            p == aa.d * bb.d,
            q == a.d * b.d,
    ;
    assert((a.n * b.d) * p == (aa.n * bb.d) * q) by (nonlinear_arith)
        requires
            a.n * aa.d == aa.n * a.d,
            p == aa.d * bb.d,
            q == a.d * b.d,
    ;
    assert((b.n * a.d) * p == (bb.n * aa.d) * q) by (nonlinear_arith)
        requires
            b.n * bb.d == bb.n * b.d,
            p == aa.d * bb.d,
            q == a.d * b.d,
    ;
    if q_lt(a, b) {
        assert((a.n * b.d) * p < (b.n * a.d) * p) by (nonlinear_arith)
            requires
                a.n * b.d < b.n * a.d,
                p > 0,
        ;
        assert((aa.n * bb.d) * q < (bb.n * aa.d) * q);
        assert(aa.n * bb.d < bb.n * aa.d) by (nonlinear_arith)
            requires
                (aa.n * bb.d) * q < (bb.n * aa.d) * q,
                q > 0,
        ;
    } else {
        assert((a.n * b.d) * p >= (b.n * a.d) * p) by (nonlinear_arith)
            requires
                a.n * b.d >= b.n * a.d,
                p > 0,
        ;
        assert((aa.n * bb.d) * q >= (bb.n * aa.d) * q);
        assert(aa.n * bb.d >= bb.n * aa.d) by (nonlinear_arith)
            requires
                (aa.n * bb.d) * q >= (bb.n * aa.d) * q,
                q > 0,
        ;
    }
}

/// The floor is the same for equal rationals.
pub proof fn lemma_q_floor_cong(a: Q, aa: Q)
    requires
        q_eq(a, aa),
        a.d > 0,
        aa.d > 0,
    ensures
        q_floor(a) == q_floor(aa),
{
    let f = q_floor(a);
    vstd::arithmetic::div_mod::lemma_fundamental_div_mod(a.n, a.d);
    // f * a.d <= a.n < (f + 1) * a.d, so f * aa.d <= aa.n < (f + 1) * aa.d
    assert(f * a.d <= a.n < (f + 1) * a.d) by (nonlinear_arith)
        requires
            a.n == a.d * f + a.n % a.d,
            0 <= a.n % a.d < a.d,
    ;
    assert(f * aa.d <= aa.n < (f + 1) * aa.d) by (nonlinear_arith)
        requires
            f * a.d <= a.n < (f + 1) * a.d,
            a.n * aa.d == aa.n * a.d,
            a.d > 0,
            aa.d > 0,
    ;
    assert((f + 1) * aa.d == f * aa.d + aa.d) by (nonlinear_arith);
    vstd::arithmetic::div_mod::lemma_fundamental_div_mod_converse(aa.n, aa.d, f, aa.n - f * aa.d);
}


/// Negation keeps rationals equal.
pub proof fn lemma_q_neg_cong(a: Q, b: Q)
    requires
        q_eq(a, b),
    ensures
        q_eq(q_neg(a), q_neg(b)),
{
    assert((-a.n) * b.d == (-b.n) * a.d) by (nonlinear_arith)
        requires
            a.n * b.d == b.n * a.d,
    ;
}

/// Strictly below then not above is strictly below.
pub proof fn lemma_q_lt_le_trans(a: Q, b: Q, c: Q)
    requires
        q_wf(a),
        q_wf(b),
        q_wf(c),
        q_lt(a, b),
        !q_lt(c, b),
    ensures
        q_lt(a, c),
{
    assert(a.n * b.d * c.d < b.n * a.d * c.d) by (nonlinear_arith)
        requires
            a.n * b.d < b.n * a.d,
            c.d > 0,
    ;
    assert(b.n * c.d * a.d <= c.n * b.d * a.d) by (nonlinear_arith)
        requires
            b.n * c.d <= c.n * b.d,
            a.d > 0,
    ;
    assert(a.n * c.d * b.d < c.n * a.d * b.d) by (nonlinear_arith)
        requires
            a.n * b.d * c.d < b.n * a.d * c.d,
            b.n * c.d * a.d <= c.n * b.d * a.d,
    ;
    assert(a.n * c.d < c.n * a.d) by (nonlinear_arith)
        requires
            a.n * c.d * b.d < c.n * a.d * b.d,
            b.d > 0,
    ;
}

/// Not above then strictly below is strictly below.
pub proof fn lemma_q_le_lt_trans(a: Q, b: Q, c: Q)
    requires
        q_wf(a),
        q_wf(b),
        q_wf(c),
        !q_lt(b, a),
        q_lt(b, c),
    ensures
        q_lt(a, c),
{
    assert(a.n * b.d * c.d <= b.n * a.d * c.d) by (nonlinear_arith)
        requires
            a.n * b.d <= b.n * a.d,
            c.d > 0,
    ;
    assert(b.n * c.d * a.d < c.n * b.d * a.d) by (nonlinear_arith)
        requires
            b.n * c.d < c.n * b.d,
            a.d > 0,
    ;
    assert(a.n * c.d * b.d < c.n * a.d * b.d) by (nonlinear_arith)
        requires
            a.n * b.d * c.d <= b.n * a.d * c.d,
            b.n * c.d * a.d < c.n * b.d * a.d,
    ;
    assert(a.n * c.d < c.n * a.d) by (nonlinear_arith)
        requires
            a.n * c.d * b.d < c.n * a.d * b.d,
            b.d > 0,
    ;
}

/// Not above then not above is not above.
pub proof fn lemma_q_le_trans(a: Q, b: Q, c: Q)
    requires
        q_wf(a),
        q_wf(b),
        q_wf(c),
        !q_lt(b, a),
        !q_lt(c, b),
    ensures
        !q_lt(c, a),
{
    assert(a.n * b.d * c.d <= b.n * a.d * c.d) by (nonlinear_arith)
        requires
            a.n * b.d <= b.n * a.d,
            c.d > 0,
    ;
    assert(b.n * c.d * a.d <= c.n * b.d * a.d) by (nonlinear_arith)
        requires
            b.n * c.d <= c.n * b.d,
            a.d > 0,
    ;
    assert(a.n * c.d * b.d <= c.n * a.d * b.d) by (nonlinear_arith)
        requires
            a.n * b.d * c.d <= b.n * a.d * c.d,
            b.n * c.d * a.d <= c.n * b.d * a.d,
    ;
    assert(a.n * c.d <= c.n * a.d) by (nonlinear_arith)
        requires
            a.n * c.d * b.d <= c.n * a.d * b.d,
            b.d > 0,
    ;
}

} // verus!
