use crate::math::component::arith::{int_div, int_div_trunc, int_gcd, int_mul};
use crate::math::component::rational::{abs, limbs_val, nat_gcd, BigInteger, BigNatural};
use vstd::prelude::*;

verus! {

/// Builds a vector of `capacity` elements, element `i` being `value_func(i)`.
pub fn filled_vec<T, F>(capacity: usize, value_func: F) -> (vec: Vec<T>)
    where
        F: Fn(usize) -> T,
    requires
        forall|i: usize| i < capacity ==> call_requires(value_func, (i,)),
    ensures
        vec.len() == capacity,
        forall|i: int| 0 <= i < capacity ==> call_ensures(value_func, (i as usize,), #[trigger] vec[i]),
{
    let mut vec: Vec<T> = Vec::with_capacity(capacity);
    let mut i: usize = 0;
    while i < capacity
        invariant
            i <= capacity,
            vec.len() == i,
            forall|j: usize| j < capacity ==> call_requires(value_func, (j,)),
            forall|j: int| 0 <= j < i ==> call_ensures(value_func, (j as usize,), #[trigger] vec[j]),
        decreases capacity - i,
    {
        let v = value_func(i);
        vec.push(v);
        i = i + 1;
    }
    vec
}

/// The first `new_size` elements of `vec`, padded with zeros where `vec` is shorter.
pub open spec fn resized_usizes(v: Seq<usize>, new_size: nat) -> Seq<usize> {
    Seq::new(new_size, |i: int| if i < v.len() { v[i] } else { 0usize })
}

/// Copies `vec` into a vector of length `new_size`, cut or padded with zeros.
pub fn copy_of_usizes(vec: &Vec<usize>, new_size: usize) -> (result: Vec<usize>)
    ensures
        result@ == resized_usizes(vec@, new_size as nat),
{
    let mut result: Vec<usize> = Vec::with_capacity(new_size);
    let old_size = vec.len();
    let mut i: usize = 0;
    while i < new_size
        invariant
            i <= new_size,
            old_size == vec.len(),
            result@ == resized_usizes(vec@, new_size as nat).take(i as int),
        decreases new_size - i,
    {
        if i < old_size {
            result.push(vec[i]);
        } else {
            result.push(0);
        }
        i = i + 1;
        assert(result@ =~= resized_usizes(vec@, new_size as nat).take(i as int));
    }
    assert(result@ =~= resized_usizes(vec@, new_size as nat));
    result
}

/// Logical (unsigned) right shift.
pub trait Ushr: Sized {
    fn ushr(self, n: i32) -> Self
        requires
            0 <= n < 64,
    ;
}

impl Ushr for i64 {
    /// Shifts the two's complement bits of `self` right by `n`, filling with zeros.
    fn ushr(self, n: i32) -> (r: i64)
        ensures
            r == ((self as u64) >> (n as u64)) as i64,
    {
        if self >= 0 {
            let shift = n as u64;
            let r = self >> shift;
            assert(r == ((self as u64) >> shift) as i64) by (bit_vector)
                requires
                    self >= 0,
                    shift < 64,
                    r == self >> shift,
            ;
            return r;
        }
        let u = (self as u64) >> (n as u64);
        u as i64
    }
}


/// The least common multiple.
pub trait LCM: Sized {
    /// Whether `lcm` is defined on the two values.
    spec fn lcm_defined(&self, other: &Self) -> bool;

    fn lcm(&self, other: &Self) -> Self
        requires
            self.lcm_defined(other),
    ;
}

/// The product `k * g`.
pub open spec fn times(k: int, g: int) -> int {
    k * g
}

/// `g` divides `x`.
pub open spec fn divides(g: int, x: int) -> bool {
    exists|k: int| #[trigger] times(k, g) == x
}

impl LCM for BigInteger {
    /// Defined unless both numbers are zero (their greatest common divisor is zero).
    open spec fn lcm_defined(&self, other: &Self) -> bool {
        self@ != 0 || other@ != 0
    }

    /// The product divided by the greatest common divisor: a common multiple of both numbers,
    /// with the sign of their product.
    fn lcm(&self, other: &Self) -> (r: BigInteger)
        ensures
            r@ == int_div_trunc(self@ * other@, nat_gcd(abs(self@), abs(other@)) as int),
            self@ != 0 && other@ != 0 ==> r@ != 0 && divides(self@, r@) && divides(other@, r@),
    {
        let product = int_mul(self, other);
        let g = int_gcd(self, other);
        proof {
            lemma_gcd_divides(abs(self@), abs(other@));
        }
        let gi = BigInteger { non_negative: true, magnitude: g };
        let r = int_div(&product, &gi);
        proof {
            if self@ != 0 && other@ != 0 {
                lemma_lcm_multiple(self@, other@, nat_gcd(abs(self@), abs(other@)) as int);
            }
        }
        r
    }
}

/// Euclid's `nat_gcd` divides both numbers, and is positive unless both are zero.
pub proof fn lemma_gcd_divides(a: nat, b: nat)
    ensures
        (a > 0 || b > 0) ==> nat_gcd(a, b) > 0,
        divides(nat_gcd(a, b) as int, a as int),
        divides(nat_gcd(a, b) as int, b as int),
    decreases b,
{
    let g = nat_gcd(a, b) as int;
    if b == 0 {
        assert(times(1, g) == a as int);
        assert(times(0, g) == b as int);
    } else {
        lemma_gcd_divides(b, a % b);
        let kb = choose|k: int| #[trigger] times(k, g) == b as int;
        let kr = choose|k: int| #[trigger] times(k, g) == (a % b) as int;
        vstd::arithmetic::div_mod::lemma_fundamental_div_mod(a as int, b as int);
        let q = (a / b) as int;
        assert(a as int == (q * kb + kr) * g) by (nonlinear_arith)
            requires
                a as int == b * q + (a % b) as int,
                b as int == kb * g,
                (a % b) as int == kr * g,
        ;
        assert(times(q * kb + kr, g) == a as int);
        assert(times(kb, g) == b as int);
    }
}

/// For nonzero `a`, `b` and a positive common divisor `g` of both, `a * b / g` is a nonzero
/// common multiple of `a` and `b`.
proof fn lemma_lcm_multiple(a: int, b: int, g: int)
    requires
        a != 0,
        b != 0,
        g > 0,
        divides(g, abs(a) as int),
        divides(g, abs(b) as int),
    ensures
        int_div_trunc(a * b, g) != 0,
        divides(a, int_div_trunc(a * b, g)),
        divides(b, int_div_trunc(a * b, g)),
{
    let ka = choose|k: int| #[trigger] times(k, g) == abs(a) as int;
    let kb = choose|k: int| #[trigger] times(k, g) == abs(b) as int;
    let sa: int = if a >= 0 { 1 } else { -1 };
    let sb: int = if b >= 0 { 1 } else { -1 };
    assert(times(ka, g) == abs(a) as int);
    assert(times(kb, g) == abs(b) as int);
    assert(a == sa * ka * g) by (nonlinear_arith)
        requires
            abs(a) as int == ka * g,
            a >= 0 ==> abs(a) as int == a && sa == 1,
            a < 0 ==> abs(a) as int == -a && sa == -1,
    ;
    assert(b == sb * kb * g) by (nonlinear_arith)
        requires
            abs(b) as int == kb * g,
            b >= 0 ==> abs(b) as int == b && sb == 1,
            b < 0 ==> abs(b) as int == -b && sb == -1,
    ;
    assert(ka >= 1 && kb >= 1) by (nonlinear_arith)
        requires
            abs(a) as int == ka * g,
            abs(b) as int == kb * g,
            abs(a) > 0,
            abs(b) > 0,
            g > 0,
    ;
    let p = a * b;
    let m = ka * kb * g;
    assert(m >= 1) by (nonlinear_arith)
        requires
            ka >= 1,
            kb >= 1,
            g >= 1,
            m == ka * kb * g,
    ;
    assert(p == (sa * sb) * (g * m)) by (nonlinear_arith)
        requires
            a == sa * ka * g,
            b == sb * kb * g,
            m == ka * kb * g,
            p == a * b,
    ;
    assert(g * m > 0) by (nonlinear_arith)
        requires
            m >= 1,
            g >= 1,
    ;
    assert(abs(p) as int == g * m);
    vstd::arithmetic::div_mod::lemma_div_multiples_vanish(m, g);
    let r = int_div_trunc(p, g);
    assert(r == sa * sb * m);
    assert(r == (sb * kb) * a) by (nonlinear_arith)
        requires
            r == sa * sb * m,
            m == ka * kb * g,
            a == sa * ka * g,
            sa * sa == 1,
    ;
    assert(r == (sa * ka) * b) by (nonlinear_arith)
        requires
            r == sa * sb * m,
            m == ka * kb * g,
            b == sb * kb * g,
            sb * sb == 1,
    ;
    assert(times(sb * kb, a) == r);
    assert(times(sa * ka, b) == r);
}

/// Conversion to `u64`.
pub trait ToU64 {
    fn to_u64(&self) -> u64;
}

impl ToU64 for BigNatural {
    /// The lowest 64 bits: the number modulo 2^64.
    fn to_u64(&self) -> (r: u64)
        ensures
            r as nat == self@ % 0x1_0000_0000_0000_0000,
    {
        if self.is_zero() {
            return 0;
        }
        proof {
            if self.limbs@.len() == 0 {
                assert(limbs_val(self.limbs@) == 0);
            }
            let s = self.limbs@;
            let rest = limbs_val(s.drop_first()) as int;
            vstd::arithmetic::div_mod::lemma_fundamental_div_mod_converse(
                limbs_val(s) as int,
                0x1_0000_0000_0000_0000,
                rest,
                s[0] as int,
            );
        }
        self.limbs[0]
    }
}


/// Divisibility is transitive.
pub proof fn lemma_divides_trans(a: int, b: int, c: int)
    requires
        divides(a, b),
        divides(b, c),
    ensures
        divides(a, c),
{
    let k1 = choose|k: int| #[trigger] times(k, a) == b;
    let k2 = choose|k: int| #[trigger] times(k, b) == c;
    assert(c == (k2 * k1) * a) by (nonlinear_arith)
        requires
            b == k1 * a,
            c == k2 * b,
    ;
    assert(times(k2 * k1, a) == c);
}

/// Dividing a multiple of `s` by `s` rounds to nothing: `(k * s) / s == k`.
pub proof fn lemma_div_exact(k: int, s: int)
    requires
        s != 0,
    ensures
        int_div_trunc(k * s, s) == k,
{
    let p = k * s;
    assert(abs(p) == abs(s) * abs(k)) by (nonlinear_arith)
        requires
            p == k * s,
            k >= 0 ==> abs(k) as int == k,
            k < 0 ==> abs(k) as int == -k,
            s >= 0 ==> abs(s) as int == s,
            s < 0 ==> abs(s) as int == -s,
            p >= 0 ==> abs(p) as int == p,
            p < 0 ==> abs(p) as int == -p,
    ;
    vstd::arithmetic::div_mod::lemma_div_multiples_vanish(abs(k) as int, abs(s) as int);
    if k > 0 && s < 0 {
        assert(p < 0) by (nonlinear_arith)
            requires
                p == k * s,
                k > 0,
                s < 0,
        ;
    } else if k < 0 && s > 0 {
        assert(p < 0) by (nonlinear_arith)
            requires
                p == k * s,
                k < 0,
                s > 0,
        ;
    } else if k < 0 && s < 0 {
        assert(p > 0) by (nonlinear_arith)
            requires
                p == k * s,
                k < 0,
                s < 0,
        ;
    } else if k > 0 && s > 0 {
        assert(p > 0) by (nonlinear_arith)
            requires
                p == k * s,
                k > 0,
                s > 0,
        ;
    }
}

} // verus!
