use crate::util::util::Ushr;
use vstd::arithmetic::div_mod::*;
use vstd::arithmetic::mul::*;
use vstd::arithmetic::power2::*;
use vstd::bits::*;
use vstd::prelude::*;

verus! {

/// 2^64, the number of bit patterns of a 64-bit word.
pub open spec fn two64() -> int {
    0x1_0000_0000_0000_0000
}

/// The unsigned value of the 64-bit pattern that represents `x` modulo 2^64.
pub open spec fn m64(x: int) -> int {
    x % two64()
}

/// The unsigned value of the two's complement bits of `x`.
pub open spec fn unsigned(x: i64) -> nat {
    m64(x as int) as nat
}

/// The signed value of a 64-bit pattern `v` in `[0, 2^64)`.
pub open spec fn signed_of(v: int) -> int {
    if v >= 0x8000_0000_0000_0000 {
        v - two64()
    } else {
        v
    }
}

/// The modulus that a 64-bit `modulus` field stands for: its unsigned value, or 2^64 for zero.
pub open spec fn period(modulus: i64) -> int {
    if modulus == 0 {
        two64()
    } else {
        m64(modulus as int)
    }
}

/// Whether `modulus` lets reduction be done by masking: zero (2^64) or a positive power of two.
pub open spec fn is_mask_modulus(modulus: i64) -> bool {
    modulus == 0 || (modulus > 0 && modulus & ((modulus - 1) as i64) == 0)
}

/// The value `n` reduced as an LCG with the given `modulus` reduces it.
pub open spec fn reduced(modulus: i64, n: int) -> int {
    signed_of(m64(n) % period(modulus))
}

/// The affine map `x -> a * x + c` composed with itself `n` times, as the pair
/// `(multiplier, addend)` of the resulting affine map over the integers.
pub open spec fn aff_iter(a: int, c: int, n: nat) -> (int, int)
    decreases n,
{
    if n == 0 {
        (1, 0)
    } else {
        let p = aff_iter(a, c, (n - 1) as nat);
        (a * p.0, a * p.1 + c)
    }
}

/// Java's generator as a value: multiplier `0x5DEECE66D`, addend `0xB`, modulus 2^48.
pub open spec fn java_lcg() -> LCG {
    LCG { multiplier: 0x5DEECE66D, addend: 0xB, modulus: 0x1_0000_0000_0000, can_mask: true }
}

/// [The LCG used by Java in versions prior to 17.](https://hg.openjdk.org/jdk8/jdk8/jdk/file/tip/src/share/classes/java/util/Random.java#l88)
pub fn java() -> (lcg: LCG)
    ensures
        lcg == java_lcg(),
        lcg.wf(),
        lcg.masks(),
        lcg.multiplier == 0x5DEECE66D,
        lcg.addend == 0xB,
        lcg.modulus == 0x1_0000_0000_0000,
{
    let lcg = LCG::new(0x5DEECE66D, 0xB, 0x1_0000_0000_0000);
    assert(0x1_0000_0000_0000i64 & ((0x1_0000_0000_0000i64 - 1) as i64) == 0) by (bit_vector);
    lcg
}

/// A [linear conguential generator](https://en.wikipedia.org/wiki/Linear_congruential_generator).
#[derive(Eq, PartialEq, Clone, Copy, Debug)]
pub struct LCG {
    pub multiplier: i64,
    pub addend: i64,
    pub modulus: i64,
    /// Whether reduction is done by masking; `LCG::new` sets it from the modulus.
    pub can_mask: bool,
}

impl LCG {
    /// Well-formed: the modulus is not `i64::MIN` and the masking flag matches it.
    pub open spec fn wf(&self) -> bool {
        &&& self.modulus != i64::MIN
        &&& self.can_mask == is_mask_modulus(self.modulus)
    }

    /// Whether reduction by this generator's modulus is done by masking.
    pub open spec fn masks(&self) -> bool {
        self.can_mask
    }

    /// The seed that follows `seed`.
    pub open spec fn next_seed_spec(&self, seed: i64) -> i64 {
        reduced(self.modulus, seed * self.multiplier + self.addend) as i64
    }

    /// Creates a new LCG.
    pub fn new(multiplier: i64, addend: i64, modulus: i64) -> (lcg: LCG)
        requires
            modulus != i64::MIN,
        ensures
            lcg.wf(),
            lcg.multiplier == multiplier,
            lcg.addend == addend,
            lcg.modulus == modulus,
            lcg.masks() == is_mask_modulus(modulus),
    {
        let neg = -modulus;
        let can_mask = (modulus & neg) == modulus;
        proof {
            lemma_mask_flag(modulus, neg, can_mask);
        }
        LCG { multiplier, addend, modulus, can_mask }
    }

    /// Advances `seed` by one step of this generator.
    pub fn next_seed(&self, seed: i64) -> (next: i64)
        requires
            self.wf(),
        ensures
            next == self.next_seed_spec(seed),
            next as int == reduced(self.modulus, seed * self.multiplier + self.addend),
    {
        let product = seed.wrapping_mul(self.multiplier);
        let sum = product.wrapping_add(self.addend);
        proof {
            lemma_m64_wrapping_mul(seed, self.multiplier);
            lemma_m64_wrapping_add(product, self.addend);
            lemma_m64_add_cong(product as int, seed * self.multiplier, self.addend as int);
        }
        let r = self.modulus(sum);
        proof {
            lemma_signed_of_range(m64(sum as int) % period(self.modulus), self.modulus);
        }
        r
    }

    fn modulus(&self, n: i64) -> (r: i64)
        requires
            self.wf(),
        ensures
            r as int == reduced(self.modulus, n as int),
    {
        if self.can_mask {
            let m = self.modulus;
            let r = n & (m - 1);
            proof {
                lemma_mask_reduce(n, m, r);
            }
            r
        } else {
            let n_unsigned = n as u64;
            let mod_unsigned = self.modulus as u64;
            proof {
                lemma_u64_cast(n);
                lemma_u64_cast(self.modulus);
                assert(mod_unsigned != 0);
            }
            let v = n_unsigned % mod_unsigned;
            let r = v as i64;
            proof {
                lemma_i64_cast(v);
            }
            r
        }
    }

    /// The generator that advances a seed by `steps` steps of this one at once; a negative
    /// `steps` stands for its two's complement value, `2^64 + steps`.
    pub fn combine(&self, steps: i64) -> (lcg: LCG)
        requires
            self.wf(),
            steps != 0 ==> self.multiplier != i64::MAX,
        ensures
            lcg.wf(),
            lcg.modulus == self.modulus,
            lcg.masks() == self.masks(),
            lcg.multiplier as int == reduced(
                self.modulus,
                aff_iter(self.multiplier as int, self.addend as int, unsigned(steps)).0,
            ),
            lcg.addend as int == reduced(
                self.modulus,
                aff_iter(self.multiplier as int, self.addend as int, unsigned(steps)).1,
            ),
    {
        let ghost a = self.multiplier as int;
        let ghost c = self.addend as int;
        let ghost total = unsigned(steps);
        let mut multiplier: i64 = 1;
        let mut addend: i64 = 0;

        let mut intermediate_multiplier = self.multiplier;
        let mut intermediate_addend = self.addend;

        let mut k = steps;
        let ghost mut j: nat = 0;
        proof {
            lemma_pow2_nat_basics(0);
            assert(total % 1 == 0);
            assert(total / 1 == total);
            assert(aff_iter(a, c, 0) == (1int, 0int));
            reveal_with_fuel(aff_iter, 2);
            assert(aff_iter(a, c, 1) == (a * 1, a * 0 + c));
        }
        while k != 0
            invariant
                j <= 64,
                unsigned(k) == total / pow2_nat(j),
                j > 0 ==> k >= 0,
                m64(multiplier as int) == m64(aff_iter(a, c, total % pow2_nat(j)).0),
                m64(addend as int) == m64(aff_iter(a, c, total % pow2_nat(j)).1),
                m64(intermediate_multiplier as int) == m64(aff_iter(a, c, pow2_nat(j)).0),
                m64(intermediate_addend as int) == m64(aff_iter(a, c, pow2_nat(j)).1),
                j == 0 ==> intermediate_multiplier == self.multiplier,
                j == 0 ==> k == steps,
                steps != 0 ==> self.multiplier != i64::MAX,
                a == self.multiplier as int,
                c == self.addend as int,
                total == unsigned(steps),
            decreases unsigned(k),
        {
            let ghost r = total % pow2_nat(j);
            let ghost p = pow2_nat(j);
            proof {
                lemma_pow2_nat_basics(j);
                lemma_bits_step(total, j, k);
            }
            if k & 1 != 0 {
                let old_m = multiplier;
                let old_a = addend;
                multiplier = multiplier.wrapping_mul(intermediate_multiplier);
                addend = intermediate_multiplier.wrapping_mul(addend).wrapping_add(intermediate_addend);
                proof {
                    lemma_aff_add(a, c, r, p);
                    lemma_aff_add(a, c, p, r);
                    lemma_m64_wrapping_mul(old_m, intermediate_multiplier);
                    lemma_m64_mul_cong(
                        old_m as int,
                        intermediate_multiplier as int,
                        aff_iter(a, c, r).0,
                        aff_iter(a, c, p).0,
                    );
                    lemma_mul_is_commutative(aff_iter(a, c, r).0, aff_iter(a, c, p).0);
                    let t = intermediate_multiplier.wrapping_mul(old_a);
                    lemma_m64_wrapping_mul(intermediate_multiplier, old_a);
                    lemma_m64_wrapping_add(t, intermediate_addend);
                    lemma_m64_mul_cong(
                        intermediate_multiplier as int,
                        old_a as int,
                        aff_iter(a, c, p).0,
                        aff_iter(a, c, r).1,
                    );
                    lemma_m64_add_cong2(
                        t as int,
                        intermediate_addend as int,
                        aff_iter(a, c, p).0 * aff_iter(a, c, r).1,
                        aff_iter(a, c, p).1,
                    );
                    assert(r + p == total % pow2_nat(j + 1));
                }
            } else {
                proof {
                    assert(r == total % pow2_nat(j + 1));
                }
            }
            proof {
                if j > 0 {
                    lemma_square_not_max(intermediate_multiplier, a, c, j);
                }
            }
            let old_im = intermediate_multiplier;
            let old_ia = intermediate_addend;
            intermediate_addend = (intermediate_multiplier + 1).wrapping_mul(intermediate_addend);
            intermediate_multiplier = intermediate_multiplier.wrapping_mul(intermediate_multiplier);
            proof {
                lemma_aff_add(a, c, p, p);
                lemma_m64_wrapping_mul(old_im, old_im);
                lemma_m64_mul_cong(old_im as int, old_im as int, aff_iter(a, c, p).0, aff_iter(a, c, p).0);
                lemma_m64_wrapping_mul((old_im + 1) as i64, old_ia);
                lemma_m64_add_cong(old_im as int, aff_iter(a, c, p).0, 1);
                lemma_m64_mul_cong(
                    (old_im + 1) as int,
                    old_ia as int,
                    aff_iter(a, c, p).0 + 1,
                    aff_iter(a, c, p).1,
                );
                assert((aff_iter(a, c, p).0 + 1) * aff_iter(a, c, p).1 == aff_iter(a, c, p).0
                    * aff_iter(a, c, p).1 + aff_iter(a, c, p).1) by (nonlinear_arith);
                assert(p + p == pow2_nat(j + 1));
            }
            let ghost old_k = k;
            k = k.ushr(1);
            proof {
                lemma_ushr_halves(old_k, k, total, j);
                j = j + 1;
            }
        }
        proof {
            lemma_pow2_nat_basics(j);
            lemma_fundamental_div_mod(total as int, pow2_nat(j) as int);
            lemma_small_mod(total, pow2_nat(j));
        }
        let ghost fin_m = multiplier;
        let ghost fin_a = addend;
        multiplier = self.modulus(multiplier);
        addend = self.modulus(addend);
        proof {
            lemma_reduced_m64(self.modulus, fin_m as int, aff_iter(a, c, total).0);
            lemma_reduced_m64(self.modulus, fin_a as int, aff_iter(a, c, total).1);
        }

        LCG::new(multiplier, addend, self.modulus)
    }
}

/// A generator for random numbers.
pub struct Random {
    /// The [LCG] used.
    pub lcg: LCG,
    /// The current internal seed.
    pub seed: i64,
}

impl Random {
    /// Creates a new random generator.
    pub fn of_seed(lcg: LCG, seed: i64) -> (r: Random)
        ensures
            r.lcg == lcg,
            r.seed == seed,
    {
        Random { lcg, seed }
    }

    /// Returns the internal seed.
    pub fn get_seed(&self) -> (seed: i64)
        ensures
            seed == self.seed,
    {
        self.seed
    }

    /// Sets the internal seed.
    pub fn set_seed(&mut self, seed: i64)
        ensures
            final(self).seed == seed,
            final(self).lcg == old(self).lcg,
    {
        self.seed = seed;
    }

    /// Advances the internal seed by the given number of steps.
    pub fn advance_steps(&mut self, steps: i64)
        requires
            old(self).lcg.wf(),
            steps != 0 ==> old(self).lcg.multiplier != i64::MAX,
        ensures
            final(self).lcg == old(self).lcg,
            final(self).seed == combined(old(self).lcg, steps).next_seed_spec(old(self).seed),
    {
        let skip = self.lcg.combine(steps);
        self.advance(&skip);
    }

    /// Advances the internal seed by one step using the given LCG.
    pub fn advance(&mut self, skip: &LCG)
        requires
            skip.wf(),
        ensures
            final(self).lcg == old(self).lcg,
            final(self).seed == skip.next_seed_spec(old(self).seed),
    {
        self.seed = skip.next_seed(self.seed);
    }
}

/// The generator `lcg.combine(steps)` returns, by its multiplier, addend and modulus.
pub open spec fn combined_fields(lcg: LCG, steps: i64) -> (int, int, i64) {
    let p = aff_iter(lcg.multiplier as int, lcg.addend as int, unsigned(steps));
    (reduced(lcg.modulus, p.0), reduced(lcg.modulus, p.1), lcg.modulus)
}

/// A generator whose fields are those that `lcg.combine(steps)` returns.
pub open spec fn combined(lcg: LCG, steps: i64) -> LCG {
    let f = combined_fields(lcg, steps);
    LCG { multiplier: f.0 as i64, addend: f.1 as i64, modulus: f.2, can_mask: is_mask_modulus(f.2) }
}

/// A well-formed generator with the modulus of `lcg` and the multiplier and addend that
/// `lcg.combine(steps)` computes is `combined(lcg, steps)`.
pub proof fn lemma_combined(lcg: LCG, steps: i64, out: LCG)
    requires
        out.wf(),
        out.modulus == lcg.modulus,
        out.multiplier as int == reduced(lcg.modulus, aff_iter(lcg.multiplier as int, lcg.addend as int, unsigned(steps)).0),
        out.addend as int == reduced(lcg.modulus, aff_iter(lcg.multiplier as int, lcg.addend as int, unsigned(steps)).1),
    ensures
        out == combined(lcg, steps),
{
}

/// The seed reached from `seed` by `n` steps of `lcg`.
pub open spec fn iterate_seed(lcg: LCG, n: nat, seed: i64) -> i64
    decreases n,
{
    if n == 0 {
        seed
    } else {
        lcg.next_seed_spec(iterate_seed(lcg, (n - 1) as nat, seed))
    }
}

// ---------------------------------------------------------------------------
// Arithmetic lemmas
// ---------------------------------------------------------------------------

/// 2^n as a natural number.
pub open spec fn pow2_nat(n: nat) -> nat
    decreases n,
{
    if n == 0 {
        1
    } else {
        2 * pow2_nat((n - 1) as nat)
    }
}

proof fn lemma_pow2_nat_basics(n: nat)
    ensures
        pow2_nat(n) >= 1,
        pow2_nat(n + 1) == 2 * pow2_nat(n),
        n == 64 ==> pow2_nat(n) == two64(),
        n < 64 ==> pow2_nat(n) < two64(),
    decreases n,
{
    if n > 0 {
        lemma_pow2_nat_basics((n - 1) as nat);
    }
    if n == 64 {
        reveal_with_fuel(pow2_nat, 65);
    }
    if n < 64 {
        lemma_pow2_nat_mono(n, 64);
        reveal_with_fuel(pow2_nat, 65);
    }
}

proof fn lemma_pow2_nat_mono(a: nat, b: nat)
    requires
        a < b,
    ensures
        pow2_nat(a) < pow2_nat(b),
    decreases b,
{
    if a + 1 == b {
        lemma_pow2_pos(a);
    } else {
        lemma_pow2_nat_mono(a, (b - 1) as nat);
        lemma_pow2_pos((b - 1) as nat);
    }
}

proof fn lemma_pow2_pos(n: nat)
    ensures
        pow2_nat(n) >= 1,
        pow2_nat(n + 1) == 2 * pow2_nat(n),
    decreases n,
{
    if n > 0 {
        lemma_pow2_pos((n - 1) as nat);
    }
}

/// One step of binary digit extraction: if `k = total / 2^j`, then the lowest bit of `k`
/// decides how `total % 2^(j+1)` relates to `total % 2^j`.
proof fn lemma_bits_step(total: nat, j: nat, k: i64)
    requires
        unsigned(k) == total / pow2_nat(j),
        k != 0,
        j <= 64,
        total < two64(),
        pow2_nat(j) >= 1,
        pow2_nat(j + 1) == 2 * pow2_nat(j),
        j == 64 ==> pow2_nat(j) == two64(),
    ensures
        j < 64,
        (k & 1 != 0) ==> total % pow2_nat(j + 1) == total % pow2_nat(j) + pow2_nat(j),
        (k & 1 == 0) ==> total % pow2_nat(j + 1) == total % pow2_nat(j),
        total / pow2_nat(j + 1) == (unsigned(k)) / 2,
{
    let p = pow2_nat(j) as int;
    let q = total as int / p;
    if j == 64 {
        lemma_basic_div(total as int, two64());
        assert(false);
    }
    assert((k & 1 != 0) == ((k as u64) % 2 == 1)) by (bit_vector);
    lemma_u64_cast(k);
    lemma_fundamental_div_mod(total as int, p);
    lemma_fundamental_div_mod(q, 2);
    lemma_div_denominator(total as int, p, 2);
    lemma_mul_is_commutative(p, 2);
    let r = total as int % p;
    lemma_mod_bound(total as int, p);
    // total = p * q + r = p * (2 * (q / 2) + q % 2) + r = 2p * (q / 2) + (p * (q % 2) + r)
    assert(total as int == (2 * p) * (q / 2) + (p * (q % 2) + r)) by (nonlinear_arith)
        requires
            total as int == p * q + r,
            q == 2 * (q / 2) + q % 2,
    ;
    lemma_mod_bound(q, 2);
    assert(0 <= p * (q % 2) + r < 2 * p) by (nonlinear_arith)
        requires
            0 <= q % 2 < 2,
            0 <= r < p,
    ;
    assert((2 * p) * (q / 2) == (q / 2) * (2 * p)) by (nonlinear_arith);
    lemma_fundamental_div_mod_converse(total as int, 2 * p, q / 2, p * (q % 2) + r);
    if q % 2 == 1 {
        assert(p * 1 == p);
    } else {
        assert(p * 0 == 0);
    }
}

/// Shifting the quotient `total / 2^j` right by one gives `total / 2^(j+1)`.
proof fn lemma_ushr_halves(old_k: i64, k: i64, total: nat, j: nat)
    requires
        k == ((old_k as u64) >> 1u64) as i64,
        total / pow2_nat(j + 1) == (unsigned(old_k)) / 2,
    ensures
        unsigned(k) == total / pow2_nat(j + 1),
        k >= 0,
{
    let x = old_k as u64;
    assert(((x >> 1u64) as i64) as u64 == x / 2 && (x >> 1u64) as i64 >= 0) by (bit_vector);
    lemma_u64_cast(old_k);
    lemma_u64_cast(k);
}

/// Composition law of the iterates of an affine map: `f^(n+m) = f^n ∘ f^m`.
pub proof fn lemma_aff_add(a: int, c: int, n: nat, m: nat)
    ensures
        aff_iter(a, c, n + m).0 == aff_iter(a, c, n).0 * aff_iter(a, c, m).0,
        aff_iter(a, c, n + m).1 == aff_iter(a, c, n).0 * aff_iter(a, c, m).1 + aff_iter(a, c, n).1,
    decreases n,
{
    if n == 0 {
        assert(aff_iter(a, c, 0) == (1int, 0int));
        assert(n + m == m);
    } else {
        let n1 = (n - 1) as nat;
        lemma_aff_add(a, c, n1, m);
        assert((n1 + m) + 1 == n + m);
        let pm = aff_iter(a, c, m);
        let pn1 = aff_iter(a, c, n1);
        let pnm1 = aff_iter(a, c, (n1 + m) as nat);
        assert(aff_iter(a, c, n + m) == (a * pnm1.0, a * pnm1.1 + c));
        assert(aff_iter(a, c, n) == (a * pn1.0, a * pn1.1 + c));
        assert(a * (pn1.0 * pm.0) == (a * pn1.0) * pm.0) by (nonlinear_arith);
        assert(a * (pn1.0 * pm.1 + pn1.1) + c == (a * pn1.0) * pm.1 + (a * pn1.1 + c))
            by (nonlinear_arith);
    }
}

proof fn lemma_m64_wrapping_mul(x: i64, y: i64)
    ensures
        m64(x.wrapping_mul(y) as int) == m64(x * y),
{
    let z = x * y;
    let r = z % two64();
    lemma_mod_bound(z, two64());
    if r > i64::MAX {
        assert(x.wrapping_mul(y) as int == r - two64());
        lemma_mod_add_multiples_vanish(r - two64(), two64());
        lemma_small_mod(r as nat, two64() as nat);
    } else {
        assert(x.wrapping_mul(y) as int == r);
        lemma_small_mod(r as nat, two64() as nat);
    }
}

proof fn lemma_m64_wrapping_add(x: i64, y: i64)
    ensures
        m64(x.wrapping_add(y) as int) == m64(x + y),
{
    let z = x + y;
    if z > i64::MAX {
        lemma_mod_add_multiples_vanish(z - two64(), two64());
    } else if z < i64::MIN {
        lemma_mod_add_multiples_vanish(z, two64());
    }
}

proof fn lemma_m64_mul_cong(x: int, y: int, xx: int, yy: int)
    requires
        m64(x) == m64(xx),
        m64(y) == m64(yy),
    ensures
        m64(x * y) == m64(xx * yy),
{
    lemma_mul_mod_noop_left(x, y, two64());
    lemma_mul_mod_noop_left(xx, y, two64());
    lemma_mul_mod_noop_right(xx, y, two64());
    lemma_mul_mod_noop_right(xx, yy, two64());
}

proof fn lemma_m64_add_cong(x: int, xx: int, y: int)
    requires
        m64(x) == m64(xx),
    ensures
        m64(x + y) == m64(xx + y),
{
    lemma_add_mod_noop(x, y, two64());
    lemma_add_mod_noop(xx, y, two64());
}

proof fn lemma_m64_add_cong2(x: int, y: int, xx: int, yy: int)
    requires
        m64(x) == m64(xx),
        m64(y) == m64(yy),
    ensures
        m64(x + y) == m64(xx + yy),
{
    lemma_add_mod_noop(x, y, two64());
    lemma_add_mod_noop(xx, yy, two64());
}

/// The value that `reduced` gives is the signed reading of a bit pattern below the period.
proof fn lemma_signed_of_range(v: int, modulus: i64)
    requires
        0 <= v < two64(),
    ensures
        i64::MIN <= signed_of(v) <= i64::MAX,
{
}

proof fn lemma_u64_cast(n: i64)
    ensures
        (n as u64) as int == m64(n as int),
{
    if n >= 0 {
        lemma_small_mod(n as nat, two64() as nat);
        assert((n as u64) as int == n as int);
    } else {
        assert((n as u64) as int == n as int + two64()) by (bit_vector)
            requires
                n < 0,
        ;
        lemma_mod_add_multiples_vanish(n as int, two64());
        lemma_small_mod((n + two64()) as nat, two64() as nat);
    }
}

proof fn lemma_i64_cast(v: u64)
    ensures
        (v as i64) as int == signed_of(v as int),
{
    if v > i64::MAX as u64 {
        assert((v as i64) as int == v as int - two64()) by (bit_vector)
            requires
                v > 0x7fff_ffff_ffff_ffffu64,
        ;
    } else {
        assert((v as i64) as int == v as int);
    }
}

proof fn lemma_mask_flag(modulus: i64, neg: i64, can_mask: bool)
    requires
        modulus != i64::MIN,
        neg == -modulus,
        can_mask == ((modulus & neg) == modulus),
    ensures
        can_mask == is_mask_modulus(modulus),
{
    assert(((modulus & neg) == modulus) == (modulus == 0 || (modulus > 0 && modulus & ((modulus
        - 1) as i64) == 0))) by (bit_vector)
        requires
            modulus != -0x8000_0000_0000_0000i64,
            neg == -modulus,
    ;
}

/// Masking by `m - 1` reduces modulo the period when `m` is zero or a positive power of two.
proof fn lemma_mask_reduce(n: i64, m: i64, r: i64)
    requires
        m != i64::MIN,
        is_mask_modulus(m),
        r == n & ((m - 1) as i64),
    ensures
        r as int == reduced(m, n as int),
{
    lemma_u64_cast(n);
    lemma_mod_bound(n as int, two64());
    if m == 0 {
        assert(r == n) by (bit_vector)
            requires
                m == 0,
                r == n & ((m - 1) as i64),
        ;
        lemma_small_mod(m64(n as int) as nat, two64() as nat);
        if n >= 0 {
            lemma_small_mod(n as nat, two64() as nat);
        } else {
            lemma_mod_add_multiples_vanish(n as int, two64());
            lemma_small_mod((n + two64()) as nat, two64() as nat);
        }
    } else {
        let nu = n as u64;
        let mu = m as u64;
        assert(mu > 0 && mu & ((mu - 1) as u64) == 0) by (bit_vector)
            requires
                m > 0,
                m & ((m - 1) as i64) == 0,
                mu == m as u64,
        ;
        assert(r as u64 == nu & ((mu - 1) as u64) && r >= 0) by (bit_vector)
            requires
                m > 0,
                r == n & ((m - 1) as i64),
                nu == n as u64,
                mu == m as u64,
        ;
        lemma_pow2_mask_mod(nu, mu);
        lemma_u64_cast(m);
        lemma_u64_cast(r);
        lemma_small_mod(m as nat, two64() as nat);
        assert(period(m) == m as int);
        lemma_mod_bound(nu as int, mu as int);
    }
}

/// For a power of two `m`, masking by `m - 1` is reduction modulo `m`.
proof fn lemma_pow2_mask_mod(x: u64, m: u64)
    requires
        m > 0,
        m & ((m - 1) as u64) == 0,
    ensures
        x & ((m - 1) as u64) == x % m,
{
    let n = lemma_pow2_log(m);
    lemma_u64_pow2_no_overflow(n);
    lemma_u64_low_bits_mask_is_mod(x, n);
}

/// A positive 64-bit power of two is `pow2(n)` for some `n < 64`.
proof fn lemma_pow2_log(m: u64) -> (n: nat)
    requires
        m > 0,
        m & ((m - 1) as u64) == 0,
    ensures
        n < 64,
        m as nat == pow2(n),
    decreases m,
{
    if m == 1 {
        lemma2_to64();
        0
    } else {
        let h = m / 2;
        assert(m % 2 == 0 && h > 0 && h & ((h - 1) as u64) == 0 && h < 0x8000_0000_0000_0000u64)
            by (bit_vector)
            requires
                m > 1,
                m & ((m - 1) as u64) == 0,
                h == m / 2,
        ;
        let k = lemma_pow2_log(h);
        if k == 63 {
            lemma2_to64_rest();
            assert(false);
        }
        lemma_pow2_unfold(k + 1);
        k + 1
    }
}

/// A square modulo 2^64 is never `i64::MAX`, whose residue modulo 4 is 3.
proof fn lemma_square_not_max(im: i64, a: int, c: int, j: nat)
    requires
        j > 0,
        m64(im as int) == m64(aff_iter(a, c, pow2_nat(j)).0),
    ensures
        im != i64::MAX,
{
    let h = pow2_nat((j - 1) as nat);
    lemma_pow2_pos((j - 1) as nat);
    assert(pow2_nat(j) == h + h);
    lemma_aff_add(a, c, h, h);
    let x = aff_iter(a, c, h).0;
    if im == i64::MAX {
        // m64(x * x) == 2^63 - 1, so x * x % 4 == 3
        assert(4 * 0x4000_0000_0000_0000int == two64());
        lemma_mod_mod(x * x, 4, 0x4000_0000_0000_0000int);
        assert(m64(x * x) % 4 == 3);
        assert((x * x) % 4 == 3);
        lemma_square_mod4(x);
    }
}

proof fn lemma_square_mod4(x: int)
    ensures
        (x * x) % 4 == 0 || (x * x) % 4 == 1,
{
    let q = x / 2;
    let r = x % 2;
    lemma_fundamental_div_mod(x, 2);
    lemma_mod_bound(x, 2);
    if r == 0 {
        assert(x * x == 4 * (q * q)) by (nonlinear_arith)
            requires
                x == 2 * q,
        ;
        lemma_mod_multiples_basic(q * q, 4);
        lemma_mul_is_commutative(q * q, 4);
    } else {
        assert(x * x == 4 * (q * q + q) + 1) by (nonlinear_arith)
            requires
                x == 2 * q + 1,
        ;
        lemma_mod_multiples_vanish(q * q + q, 1, 4);
        lemma_small_mod(1, 4);
    }
}

/// Reducing a 64-bit word depends only on the bit pattern.
proof fn lemma_reduced_m64(modulus: i64, x: int, xx: int)
    requires
        m64(x) == m64(xx),
    ensures
        reduced(modulus, x) == reduced(modulus, xx),
{
}

} // verus!

verus! {

/// For a masking modulus, the period divides 2^64.
pub proof fn lemma_period_factor(modulus: i64) -> (q: int)
    requires
        modulus != i64::MIN,
        is_mask_modulus(modulus),
    ensures
        period(modulus) > 0,
        q > 0,
        period(modulus) * q == two64(),
{
    if modulus == 0 {
        1
    } else {
        let mu = modulus as u64;
        assert(mu > 0 && mu & ((mu - 1) as u64) == 0) by (bit_vector)
            requires
                modulus > 0,
                modulus & ((modulus - 1) as i64) == 0,
                mu == modulus as u64,
        ;
        lemma_u64_cast(modulus);
        lemma_small_mod(modulus as nat, two64() as nat);
        let n = lemma_pow2_log(mu);
        lemma_pow2_adds(n, (64 - n) as nat);
        lemma2_to64_rest();
        vstd::arithmetic::power2::lemma_pow2_pos((64 - n) as nat);
        pow2((64 - n) as nat) as int
    }
}

/// A reduced value is congruent to its input modulo a period that divides 2^64.
proof fn lemma_reduced_cong(modulus: i64, y: int)
    requires
        modulus != i64::MIN,
        is_mask_modulus(modulus),
    ensures
        reduced(modulus, y) % period(modulus) == y % period(modulus),
        m64(y) % period(modulus) == y % period(modulus),
{
    let p = period(modulus);
    let q = lemma_period_factor(modulus);
    lemma_mul_is_commutative(p, q);
    lemma_mod_mod(y, p, q);
    let v = m64(y) % p;
    lemma_mod_bound(m64(y), p);
    lemma_mod_bound(y, two64());
    lemma_mod_twice(m64(y), p);
    if v >= 0x8000_0000_0000_0000 {
        lemma_mod_multiples_vanish(-q, v, p);
        assert(p * (-q) + v == v - two64()) by (nonlinear_arith)
            requires
                p * q == two64(),
        ;
    }
}

/// Reducing only depends on the residue modulo a period that divides 2^64.
proof fn lemma_reduced_by_residue(modulus: i64, y1: int, y2: int)
    requires
        modulus != i64::MIN,
        is_mask_modulus(modulus),
        y1 % period(modulus) == y2 % period(modulus),
    ensures
        reduced(modulus, y1) == reduced(modulus, y2),
{
    lemma_reduced_cong(modulus, y1);
    lemma_reduced_cong(modulus, y2);
}

/// Iterating a masking generator agrees, modulo its period, with the iterated affine map.
pub proof fn lemma_iterate_cong(lcg: LCG, n: nat, seed: i64)
    requires
        lcg.wf(),
        lcg.masks(),
    ensures
        iterate_seed(lcg, n, seed) as int % period(lcg.modulus) == (aff_iter(
            lcg.multiplier as int,
            lcg.addend as int,
            n,
        ).0 * seed + aff_iter(lcg.multiplier as int, lcg.addend as int, n).1) % period(lcg.modulus),
    decreases n,
{
    let a = lcg.multiplier as int;
    let c = lcg.addend as int;
    let p = period(lcg.modulus);
    lemma_period_factor(lcg.modulus);
    if n == 0 {
        assert(aff_iter(a, c, 0) == (1int, 0int));
        assert(1 * seed + 0 == seed as int);
    } else {
        let n1 = (n - 1) as nat;
        lemma_iterate_cong(lcg, n1, seed);
        let prev = iterate_seed(lcg, n1, seed);
        let pa = aff_iter(a, c, n1);
        let y = prev * a + c;
        lemma_reduced_cong(lcg.modulus, y);
        let r = reduced(lcg.modulus, y);
        lemma_signed_of_range(m64(y) % p, lcg.modulus);
        lemma_mod_bound(m64(y), p);
        lemma_mod_bound(y, two64());
        assert(iterate_seed(lcg, n, seed) as int == r);
        // y = prev * a + c is congruent to (pa.0 * seed + pa.1) * a + c
        lemma_mul_mod_noop_left(prev as int, a, p);
        lemma_mul_mod_noop_left(pa.0 * seed + pa.1, a, p);
        lemma_add_mod_noop(prev * a, c, p);
        lemma_add_mod_noop((pa.0 * seed + pa.1) * a, c, p);
        assert((pa.0 * seed + pa.1) * a + c == (a * pa.0) * seed + (a * pa.1 + c)) by (nonlinear_arith);
    }
}

/// Advancing by `steps` at once with `combine` agrees with advancing step by step, for a
/// generator that reduces by masking (a power-of-two modulus, or zero for 2^64), and a
/// nonzero number of steps (read as its two's complement value).
pub proof fn lemma_combine_iterates(lcg: LCG, steps: i64, seed: i64)
    requires
        lcg.wf(),
        lcg.masks(),
        steps != 0,
    ensures
        combined(lcg, steps).next_seed_spec(seed) == iterate_seed(lcg, unsigned(steps), seed),
{
    let a = lcg.multiplier as int;
    let c = lcg.addend as int;
    let modulus = lcg.modulus;
    let p = period(modulus);
    let n = unsigned(steps);
    lemma_period_factor(modulus);
    lemma_mod_bound(steps as int, two64());
    assert(n > 0);
    let pn = aff_iter(a, c, n);
    let cl = combined(lcg, steps);
    let mm = reduced(modulus, pn.0);
    let cc = reduced(modulus, pn.1);
    lemma_mod_bound(m64(pn.0), p);
    lemma_mod_bound(m64(pn.1), p);
    lemma_mod_bound(pn.0, two64());
    lemma_mod_bound(pn.1, two64());
    lemma_signed_of_range(m64(pn.0) % p, modulus);
    lemma_signed_of_range(m64(pn.1) % p, modulus);
    assert(cl.multiplier as int == mm);
    assert(cl.addend as int == cc);
    lemma_reduced_cong(modulus, pn.0);
    lemma_reduced_cong(modulus, pn.1);
    // seed * mm + cc is congruent to pn.0 * seed + pn.1
    lemma_mul_mod_noop_right(seed as int, mm, p);
    lemma_mul_mod_noop_right(seed as int, pn.0, p);
    lemma_add_mod_noop(seed * mm, cc, p);
    lemma_add_mod_noop(seed * pn.0, pn.1, p);
    lemma_mul_is_commutative(seed as int, pn.0);
    let y1 = seed * mm + cc;
    assert(y1 % p == (pn.0 * seed + pn.1) % p);
    // the last step of the iteration
    let n1 = (n - 1) as nat;
    lemma_iterate_cong(lcg, n1, seed);
    let prev = iterate_seed(lcg, n1, seed);
    let pa = aff_iter(a, c, n1);
    let y2 = prev * a + c;
    lemma_mul_mod_noop_left(prev as int, a, p);
    lemma_mul_mod_noop_left(pa.0 * seed + pa.1, a, p);
    lemma_add_mod_noop(prev * a, c, p);
    lemma_add_mod_noop((pa.0 * seed + pa.1) * a, c, p);
    assert((pa.0 * seed + pa.1) * a + c == (a * pa.0) * seed + (a * pa.1 + c)) by (nonlinear_arith);
    assert(y2 % p == (pn.0 * seed + pn.1) % p);
    lemma_reduced_by_residue(modulus, y1, y2);
}

/// `Random::advance_steps` moves the seed as far as that many calls of `Random::advance`
/// with the generator's own LCG would, under the conditions of `lemma_combine_iterates`.
pub proof fn lemma_advance_steps_iterates(lcg: LCG, steps: i64, seed: i64)
    requires
        lcg.wf(),
        lcg.masks(),
        steps != 0,
    ensures
        combined(lcg, steps).next_seed_spec(seed) == iterate_seed(lcg, unsigned(steps), seed),
        combined(lcg, steps).wf(),
{
    lemma_combine_iterates(lcg, steps, seed);
}


/// The multiplier of the `n`-fold affine map is the `n`-th power of the multiplier.
pub proof fn lemma_aff_iter_pow(a: int, c: int, n: nat)
    ensures
        aff_iter(a, c, n).0 == vstd::arithmetic::power::pow(a, n),
    decreases n,
{
    reveal(vstd::arithmetic::power::pow);
    if n > 0 {
        lemma_aff_iter_pow(a, c, (n - 1) as nat);
    }
}

/// For a generator that reduces by masking, a step of `combined(lcg, steps)` (for
/// `steps >= 0`) agrees, modulo the period, with the `steps`-fold affine map.
pub proof fn lemma_combined_cong(lcg: LCG, steps: i64, x: i64)
    requires
        lcg.wf(),
        lcg.masks(),
        steps >= 0,
    ensures
        combined(lcg, steps).next_seed_spec(x) as int % period(lcg.modulus) == (aff_iter(
            lcg.multiplier as int,
            lcg.addend as int,
            steps as nat,
        ).0 * x + aff_iter(lcg.multiplier as int, lcg.addend as int, steps as nat).1) % period(lcg.modulus),
{
    let a = lcg.multiplier as int;
    let c = lcg.addend as int;
    let modulus = lcg.modulus;
    let p = period(modulus);
    lemma_period_factor(modulus);
    lemma_small_mod(steps as nat, two64() as nat);
    assert(unsigned(steps) == steps as nat);
    let pa = aff_iter(a, c, steps as nat);
    let cl = combined(lcg, steps);
    let mm = reduced(modulus, pa.0);
    let cc = reduced(modulus, pa.1);
    lemma_mod_bound(m64(pa.0), p);
    lemma_mod_bound(m64(pa.1), p);
    lemma_mod_bound(pa.0, two64());
    lemma_mod_bound(pa.1, two64());
    lemma_signed_of_range(m64(pa.0) % p, modulus);
    lemma_signed_of_range(m64(pa.1) % p, modulus);
    assert(cl.multiplier as int == mm);
    assert(cl.addend as int == cc);
    let y = x * cl.multiplier + cl.addend;
    lemma_reduced_cong(modulus, y);
    lemma_mod_bound(m64(y), p);
    lemma_mod_bound(y, two64());
    lemma_signed_of_range(m64(y) % p, modulus);
    assert(cl.next_seed_spec(x) as int == reduced(modulus, y));
    lemma_reduced_cong(modulus, pa.0);
    lemma_reduced_cong(modulus, pa.1);
    lemma_mul_mod_noop_right(x as int, mm, p);
    lemma_mul_mod_noop_right(x as int, pa.0, p);
    lemma_add_mod_noop(x * mm, cc, p);
    lemma_add_mod_noop(x * pa.0, pa.1, p);
    lemma_mul_is_commutative(x as int, pa.0);
}


/// The period is positive and is the modulus read as a positive number (2^64 added to one
/// not above zero).
pub proof fn lemma_period_positive(modulus: i64)
    ensures
        period(modulus) > 0,
        period(modulus) == if modulus <= 0 { modulus + two64() } else { modulus as int },
{
    lemma_mod_bound(modulus as int, two64());
    if modulus > 0 {
        lemma_small_mod(modulus as nat, two64() as nat);
    } else if modulus < 0 {
        lemma_mod_multiples_vanish(1, modulus as int, two64());
        lemma_small_mod((modulus + two64()) as nat, two64() as nat);
    }
}

/// For an odd multiplier, the `2^m`-fold affine map has a multiplier one above a multiple of
/// `2^(m + 1)` and an addend that is a multiple of `2^m`.
proof fn lemma_aff_pow2_fold(a: int, c: int, m: nat)
    requires
        a % 2 == 1,
    ensures
        (aff_iter(a, c, pow2_nat(m)).0 - 1) % (2 * pow2_nat(m)) as int == 0,
        aff_iter(a, c, pow2_nat(m)).1 % (pow2_nat(m) as int) == 0,
    decreases m,
{
    lemma_pow2_nat_basics(m);
    if m == 0 {
        reveal_with_fuel(aff_iter, 2);
        assert(aff_iter(a, c, 0) == (1int, 0int));
        assert(aff_iter(a, c, 1) == (a * 1, a * 0 + c));
        lemma_fundamental_div_mod(a, 2);
        lemma_mod_multiples_basic(a / 2, 2);
        assert(a - 1 == (a / 2) * 2);
        lemma_mod_self_0(1);
        lemma_fundamental_div_mod(c, 1);
    } else {
        let m1 = (m - 1) as nat;
        lemma_aff_pow2_fold(a, c, m1);
        lemma_pow2_nat_basics(m1);
        let n = pow2_nat(m1) as int;
        let pa = aff_iter(a, c, n as nat).0;
        let pc = aff_iter(a, c, n as nat).1;
        lemma_aff_add(a, c, n as nat, n as nat);
        assert(n as nat + n as nat == pow2_nat(m));
        lemma_fundamental_div_mod(pa - 1, 2 * n);
        lemma_fundamental_div_mod(pc, n);
        let q = (pa - 1) / (2 * n);
        let r = pc / n;
        assert(pa * pa - 1 == (4 * n) * (q * (n * q + 1))) by (nonlinear_arith)
            requires
                pa - 1 == (2 * n) * q + 0,
        ;
        assert(pa * pc + pc == (2 * n) * (r * (n * q + 1))) by (nonlinear_arith)
            requires
                pa - 1 == (2 * n) * q + 0,
                pc == n * r + 0,
        ;
        assert(2 * pow2_nat(m) == 4 * n);
        lemma_mod_multiples_basic(q * (n * q + 1), 4 * n);
        assert((q * (n * q + 1)) * (4 * n) == (4 * n) * (q * (n * q + 1))) by (nonlinear_arith);
        lemma_mod_multiples_basic(r * (n * q + 1), 2 * n);
        assert((r * (n * q + 1)) * (2 * n) == (2 * n) * (r * (n * q + 1))) by (nonlinear_arith);
    }
}

/// For a generator that reduces by masking, with an odd multiplier, `u1` steps followed by
/// `u2` more, `2^64` in all, come back to the seed modulo the period.
proof fn lemma_full_cycle(lcg: LCG, u1: nat, u2: nat, x: i64)
    requires
        lcg.wf(),
        lcg.masks(),
        lcg.multiplier % 2 == 1,
        u1 + u2 == two64(),
    ensures
        (iterate_seed(lcg, u2, iterate_seed(lcg, u1, x)) as int - x as int) % period(lcg.modulus) == 0,
{
    let a = lcg.multiplier as int;
    let c = lcg.addend as int;
    let p = period(lcg.modulus);
    let k = lemma_period_factor(lcg.modulus);
    let y = iterate_seed(lcg, u1, x);
    let z = iterate_seed(lcg, u2, y);
    let f1 = aff_iter(a, c, u1);
    let f2 = aff_iter(a, c, u2);
    lemma_iterate_cong(lcg, u1, x);
    lemma_iterate_cong(lcg, u2, y);
    lemma_aff_add(a, c, u2, u1);
    lemma_aff_pow2_fold(a, c, 64);
    lemma_pow2_nat_basics(64);
    assert(u2 + u1 == pow2_nat(64));
    let g0 = f2.0 * f1.0;
    let g1 = f2.0 * f1.1 + f2.1;
    lemma_fundamental_div_mod(g0 - 1, 2 * two64());
    lemma_fundamental_div_mod(g1, two64());
    let q3 = (g0 - 1) / (2 * two64());
    let q4 = g1 / two64();
    lemma_sub_mod_noop(y as int, f1.0 * x + f1.1, p);
    lemma_sub_mod_noop(z as int, f2.0 * y + f2.1, p);
    lemma_small_mod(0, p as nat);
    lemma_fundamental_div_mod(y as int - (f1.0 * x + f1.1), p);
    lemma_fundamental_div_mod(z as int - (f2.0 * y + f2.1), p);
    let q1 = (y as int - (f1.0 * x + f1.1)) / p;
    let q2 = (z as int - (f2.0 * y + f2.1)) / p;
    assert((y as int - (f1.0 * x + f1.1)) % p == 0);
    assert((z as int - (f2.0 * y + f2.1)) % p == 0);
    let w = q2 + f2.0 * q1 + 2 * k * q3 * x + k * q4;
    let yy = y as int;
    let xx = x as int;
    assert(f2.0 * yy == p * (f2.0 * q1) + g0 * xx + f2.0 * f1.1) by (nonlinear_arith)
        requires
            yy - (f1.0 * xx + f1.1) == p * q1 + 0,
            g0 == f2.0 * f1.0,
    ;
    assert(g0 * xx - xx == p * (2 * k * q3 * xx)) by (nonlinear_arith)
        requires
            g0 - 1 == (2 * two64()) * q3 + 0,
            p * k == two64(),
    ;
    assert(g1 == p * (k * q4)) by (nonlinear_arith)
        requires
            g1 == two64() * q4 + 0,
            p * k == two64(),
    ;
    assert(p * w == p * q2 + p * (f2.0 * q1) + p * (2 * k * q3 * xx) + p * (k * q4)) by (nonlinear_arith)
        requires
            w == q2 + f2.0 * q1 + 2 * k * q3 * xx + k * q4,
    ;
    assert(z as int - xx == p * w);
    lemma_mod_multiples_basic(w, p);
    assert(w * p == p * w) by (nonlinear_arith);
}

/// Stepping a generator that reduces by masking, with an odd multiplier, `steps` forward and
/// `steps` back, in either order, comes back to the seed modulo the period: `combine(-steps)`
/// undoes `combine(steps)`.
pub proof fn lemma_combine_undoes(lcg: LCG, steps: i64, seed: i64)
    requires
        lcg.wf(),
        lcg.masks(),
        lcg.multiplier % 2 == 1,
        steps != 0,
        steps != i64::MIN,
    ensures
        (combined(lcg, steps).next_seed_spec(combined(lcg, (-steps) as i64).next_seed_spec(seed)) as int - seed as int) % period(
            lcg.modulus,
        ) == 0,
        (combined(lcg, (-steps) as i64).next_seed_spec(combined(lcg, steps).next_seed_spec(seed)) as int - seed as int) % period(
            lcg.modulus,
        ) == 0,
{
    let back = (-steps) as i64;
    lemma_combine_iterates(lcg, back, seed);
    lemma_combine_iterates(lcg, steps, seed);
    let y1 = combined(lcg, back).next_seed_spec(seed);
    let y2 = combined(lcg, steps).next_seed_spec(seed);
    lemma_combine_iterates(lcg, steps, y1);
    lemma_combine_iterates(lcg, back, y2);
    // the two step counts add up to 2^64
    lemma_fundamental_div_mod(steps as int, two64());
    lemma_fundamental_div_mod(-steps, two64());
    lemma_mod_bound(steps as int, two64());
    lemma_mod_bound(-steps, two64());
    assert(unsigned(steps) + unsigned(back) == two64()) by {
        let u = unsigned(steps) as int;
        let v = unsigned(back) as int;
        let qs = (steps as int) / two64();
        let qb = (-steps) / two64();
        assert(steps as int == two64() * qs + u);
        assert(-steps == two64() * qb + v);
        assert(u + v == -two64() * (qs + qb));
        assert(u != 0);
        if qs + qb >= 0 {
            assert(u + v <= 0);
        } else if qs + qb <= -2 {
            assert(u + v >= 2 * two64());
        }
    }
    lemma_full_cycle(lcg, unsigned(back), unsigned(steps), seed);
    lemma_full_cycle(lcg, unsigned(steps), unsigned(back), seed);
}

/// `m` steps after `n` steps are `m + n` steps.
pub proof fn lemma_iterate_add(lcg: LCG, m: nat, n: nat, seed: i64)
    ensures
        iterate_seed(lcg, m, iterate_seed(lcg, n, seed)) == iterate_seed(lcg, m + n, seed),
    decreases m,
{
    if m > 0 {
        lemma_iterate_add(lcg, (m - 1) as nat, n, seed);
        assert((m - 1) as nat + n == (m + n - 1) as nat);
    }
}

} // verus!
