use crate::util::lcg::{iterate_seed, LCG};
use crate::util::Random;
use vstd::prelude::*;

verus! {

/// The `bits` high bits (below bit 48) of a seed, as Java's `next(bits)` returns them.
pub open spec fn seed_bits(seed: i64, bits: i32) -> i32 {
    ((seed as u64) >> ((48 - bits) as u64)) as i32
}

/// The 31-bit value drawn by the `i`-th call (counting from zero) made from `seed`.
pub open spec fn draw31(lcg: LCG, seed: i64, i: nat) -> i32 {
    seed_bits(iterate_seed(lcg, i + 1, seed), 31)
}

/// The remainder of `x` divided by `d`, with the sign of `x` (as Rust's and Java's `%`).
pub open spec fn rem_trunc(x: int, d: int) -> int {
    if x >= 0 {
        x % d
    } else {
        -((-x) % d)
    }
}

/// Whether Java's `nextInt(bound)` keeps the 31-bit draw `bits`: it rejects the draws of the
/// last, incomplete run of `bound` values, found by `bits - bits % bound + (bound - 1)`
/// overflowing to a negative `i32`.
pub open spec fn bound_draw_accepted(bits: i32, bound: i32) -> bool {
    0 <= bits - rem_trunc(bits as int, bound as int) + (bound - 1) <= i32::MAX
}

/// Whether `bound` is a power of two.
pub open spec fn is_pow2_bound(bound: i32) -> bool {
    bound & ((-bound) as i32) == bound
}

/// Advances the generator one step and returns the `bits` high bits (below bit 48) of the
/// new seed.
pub fn next(random: &mut Random, bits: i32) -> (r: i32)
    requires
        old(random).lcg.wf(),
        -16 < bits <= 48,
    ensures
        final(random).lcg == old(random).lcg,
        final(random).seed == old(random).lcg.next_seed_spec(old(random).seed),
        r == seed_bits(final(random).seed, bits),
{
    random.seed = random.lcg.next_seed(random.seed);
    ((random.seed as u64) >> ((48 - bits) as u64)) as i32
}

/// An implementation of Java's nextBoolean().
pub fn next_boolean(random: &mut Random) -> (r: bool)
    requires
        old(random).lcg.wf(),
    ensures
        final(random).lcg == old(random).lcg,
        final(random).seed == old(random).lcg.next_seed_spec(old(random).seed),
        r == (seed_bits(final(random).seed, 1) == 1),
{
    next(random, 1) == 1
}

/// An implementation of Java's nextInt().
pub fn next_int(random: &mut Random) -> (r: i32)
    requires
        old(random).lcg.wf(),
    ensures
        final(random).lcg == old(random).lcg,
        final(random).seed == old(random).lcg.next_seed_spec(old(random).seed),
        r == seed_bits(final(random).seed, 32),
{
    next(random, 32)
}

/// An implementation of Java's nextInt(bound).
/// Will panic if bound is < 1.
pub fn next_bound_int(random: &mut Random, bound: i32) -> (r: i32)
    requires
        old(random).lcg.wf(),
        bound >= 1,
        !is_pow2_bound(bound) ==> exists|i: nat|
            bound_draw_accepted(#[trigger] draw31(old(random).lcg, old(random).seed, i), bound),
    ensures
        final(random).lcg == old(random).lcg,
        is_pow2_bound(bound) ==> {
            &&& final(random).seed == old(random).lcg.next_seed_spec(old(random).seed)
            &&& r == (((bound as int * seed_bits(final(random).seed, 31) as int) as i64) >> 31u64) as i32
        },
        !is_pow2_bound(bound) ==> exists|i: nat|
            {
                &&& bound_draw_accepted(#[trigger] draw31(old(random).lcg, old(random).seed, i), bound)
                &&& forall|j: nat| j < i ==> !bound_draw_accepted(
                    #[trigger] draw31(old(random).lcg, old(random).seed, j),
                    bound,
                )
                &&& final(random).seed == iterate_seed(old(random).lcg, i + 1, old(random).seed)
                &&& r as int == rem_trunc(draw31(old(random).lcg, old(random).seed, i) as int, bound as int)
            },
{
    let neg = -bound;
    if (bound & neg) == bound {
        // Bound is power of 2
        let multiplier: i64 = next(random, 31) as i64;
        proof {
            assert(-0x8000_0000 * 0x7fff_ffff <= bound as int * multiplier <= 0x7fff_ffff
                * 0x7fff_ffff) by (nonlinear_arith)
                requires
                    1 <= bound <= 0x7fff_ffff,
                    -0x8000_0000 <= multiplier < 0x8000_0000,
            ;
        }
        return ((bound as i64 * multiplier) >> 31u64) as i32;
    }
    let ghost lcg = random.lcg;
    let ghost seed0 = random.seed;
    let ghost w = choose|i: nat| bound_draw_accepted(#[trigger] draw31(lcg, seed0, i), bound);
    let ghost mut i: nat = 0;
    let mut bits: i32;
    let mut value: i32;

    loop
        invariant_except_break
            random.seed == iterate_seed(lcg, i, seed0),
        invariant
            random.lcg == lcg,
            lcg.wf(),
            bound >= 1,
            bound_draw_accepted(draw31(lcg, seed0, w), bound),
            forall|j: nat| j < i ==> !bound_draw_accepted(#[trigger] draw31(lcg, seed0, j), bound),
            i <= w,
        ensures
            random.lcg == lcg,
            random.seed == iterate_seed(lcg, i + 1, seed0),
            bound_draw_accepted(draw31(lcg, seed0, i), bound),
            forall|j: nat| j < i ==> !bound_draw_accepted(#[trigger] draw31(lcg, seed0, j), bound),
            value as int == rem_trunc(draw31(lcg, seed0, i) as int, bound as int),
        decreases w - i,
    {
        bits = next(random, 31);
        proof {
            assert(iterate_seed(lcg, i + 1, seed0) == lcg.next_seed_spec(iterate_seed(lcg, i, seed0)));
            assert(bits == draw31(lcg, seed0, i));
        }
        value = bits % bound;
        proof {
            if bits >= 0 {
                assert(value as int == (bits as int) % (bound as int));
            } else {
                assert(value as int == -((-(bits as int)) % (bound as int)));
            }
            lemma_rem_trunc(bits, bound, value);
        }
        let head = bits - value;
        let check = head.wrapping_add(bound - 1);
        if check >= 0 {
            proof {
                assert(bound_draw_accepted(bits, bound));
            }
            break;
        }
        proof {
            assert(!bound_draw_accepted(bits, bound));
            if i == w {
                assert(false);
            }
            i = i + 1;
        }
    }

    value
}

proof fn lemma_rem_trunc(x: i32, d: i32, r: i32)
    requires
        d >= 1,
        r as int == rem_trunc(x as int, d as int),
    ensures
        i32::MIN <= x - r <= i32::MAX,
{
    vstd::arithmetic::div_mod::lemma_mod_bound(x as int, d as int);
    vstd::arithmetic::div_mod::lemma_mod_bound(-(x as int), d as int);
}

/// What `nextLong()` returns from its two draws: the first times 2^32 plus the second,
/// wrapping around `i64`.
pub open spec fn long_of_draws(high: i32, low: i32) -> i64 {
    (high as i64).wrapping_mul(0x1_0000_0000).wrapping_add(low as i64)
}

/// An implementation of Java's nextLong().
pub fn next_long(random: &mut Random) -> (r: i64)
    requires
        old(random).lcg.wf(),
    ensures
        final(random).lcg == old(random).lcg,
        final(random).seed == iterate_seed(old(random).lcg, 2, old(random).seed),
        r == (seed_bits(iterate_seed(old(random).lcg, 1, old(random).seed), 32) as i64).wrapping_mul(
            0x1_0000_0000,
        ).wrapping_add(seed_bits(final(random).seed, 32) as i64),
        r == long_of_draws(seed_bits(iterate_seed(old(random).lcg, 1, old(random).seed), 32), seed_bits(final(random).seed, 32)),
{
    let ghost lcg = random.lcg;
    let ghost seed0 = random.seed;
    let upper_bits = (next(random, 32) as i64).wrapping_mul(0x1_0000_0000);
    let lower = next(random, 32) as i64;
    proof {
        assert(iterate_seed(lcg, 1, seed0) == lcg.next_seed_spec(iterate_seed(lcg, 0, seed0)));
        assert(iterate_seed(lcg, 2, seed0) == lcg.next_seed_spec(iterate_seed(lcg, 1, seed0)));
    }
    upper_bits.wrapping_add(lower)
}

} // verus!
