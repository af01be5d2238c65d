//! The bounds that the outputs of Java's `Random` calls put on the successive seeds.
use crate::math::component::arith::int_rem_trunc;
use crate::reversal::java::java_random::{is_pow2_bound, long_of_draws, rem_trunc, seed_bits};
use crate::reversal::random_reverser::RandomReverser;
use crate::util::util::Ushr;
use vstd::arithmetic::power2::pow2;
use vstd::prelude::*;
use vstd::std_specs::bits::u32_trailing_zeros;

verus! {

/// The lower ends `v[j] * offset` of the seed ranges of the outputs `v`.
pub open spec fn scaled_lows(v: Seq<i32>, offset: int) -> Seq<i64> {
    Seq::new(v.len(), |j: int| (v[j] * offset) as i64)
}

/// The upper ends `v[j] * offset + offset - 1` of the seed ranges of the outputs `v`.
pub open spec fn scaled_highs(v: Seq<i32>, offset: int) -> Seq<i64> {
    Seq::new(v.len(), |j: int| (v[j] * offset + offset - 1) as i64)
}

/// Every range `min[j] * offset ..= max[j] * offset + offset - 1` fits in an `i64`.
pub open spec fn fits_scaled(min: Seq<i32>, max: Seq<i32>, offset: int) -> bool {
    &&& forall|j: int| 0 <= j < min.len() ==> i64::MIN <= #[trigger] min[j] * offset <= i64::MAX
    &&& forall|j: int| 0 <= j < max.len() ==> i64::MIN <= #[trigger] max[j] * offset && max[j] * offset + offset <= i64::MAX
}

/// The size of the seed range of one output of `nextInt(bound)`: 2^(48 - k) for a bound
/// 2^k (the top bits of the seed), else 2^17 (the bits below the 31 drawn ones).
pub open spec fn bound_offset(bound: i32) -> int {
    if is_pow2_bound(bound) {
        pow2((48 - u32_trailing_zeros(bound as u32)) as nat) as int
    } else {
        0x20000
    }
}

/// Builds the ranges `min[j] * offset ..= max[j] * offset + offset - 1`.
fn scale_ranges(min: &Vec<i32>, max: &Vec<i32>, offset: i64) -> (r: (Vec<i64>, Vec<i64>))
    requires
        min.len() == max.len(),
        offset > 0,
        fits_scaled(min@, max@, offset as int),
    ensures
        r.0@ == scaled_lows(min@, offset as int),
        r.1@ == scaled_highs(max@, offset as int),
{
    let mut lows: Vec<i64> = Vec::with_capacity(min.len());
    let mut highs: Vec<i64> = Vec::with_capacity(max.len());
    let mut i: usize = 0;
    while i < min.len()
        invariant
            min.len() == max.len(),
            fits_scaled(min@, max@, offset as int),
            offset > 0,
            i <= min.len(),
            lows@ == scaled_lows(min@, offset as int).take(i as int),
            highs@ == scaled_highs(max@, offset as int).take(i as int),
        decreases min.len() - i,
    {
        assert(i64::MIN <= min@[i as int] * offset <= i64::MAX);
        assert(i64::MIN <= max@[i as int] * offset && max@[i as int] * offset + offset <= i64::MAX);
        lows.push((min[i] as i64) * offset);
        highs.push((max[i] as i64) * offset + offset - 1);
        i = i + 1;
        assert(lows@ =~= scaled_lows(min@, offset as int).take(i as int));
        assert(highs@ =~= scaled_highs(max@, offset as int).take(i as int));
    }
    assert(lows@ =~= scaled_lows(min@, offset as int));
    assert(highs@ =~= scaled_highs(max@, offset as int));
    (lows, highs)
}

/// Adds the outputs `min[j] ..= max[j]` of a call to Java's `nextInt(bound)`. A power-of-two
/// bound fixes the top bits of the seed; another one fixes the seed's top 31 bits modulo
/// `bound * 2^17`.
pub fn add_bound_next_int_call(reverser: &mut RandomReverser, bound: i32, min: Vec<i32>, max: Vec<i32>)
    requires
        old(reverser).wf(),
        bound != i32::MIN,
        min.len() == max.len(),
        min.len() >= 1,
        fits_scaled(min@, max@, bound_offset(bound)),
        old(reverser).room_for(min.len() as nat, if is_pow2_bound(bound) { 1 } else { 2 }),
    ensures
        final(reverser).wf(),
        is_pow2_bound(bound) ==> old(reverser).measured_by(
            final(reverser),
            scaled_lows(min@, bound_offset(bound)),
            scaled_highs(max@, bound_offset(bound)),
            old(reverser).modulus@,
        ),
        !is_pow2_bound(bound) && int_rem_trunc(old(reverser).modulus@, bound * 0x20000) == 0 ==> old(reverser).measured_by(
            final(reverser),
            scaled_lows(min@, 0x20000),
            scaled_highs(max@, 0x20000),
            bound * 0x20000,
        ),
        !is_pow2_bound(bound) && int_rem_trunc(old(reverser).modulus@, bound * 0x20000) != 0 ==> old(reverser).split_measured_by(
            final(reverser),
            scaled_lows(min@, 0x20000),
            scaled_highs(max@, 0x20000),
            bound * 0x20000,
        ),
{
    if (bound & -bound) == bound {
        // bound is power of 2
        let log = (bound as u32).trailing_zeros();
        proof {
            vstd::std_specs::bits::axiom_u32_trailing_zeros(bound as u32);
        }
        let shift = (48 - log) as u64;
        proof {
            vstd::bits::lemma_u64_pow2_no_overflow(shift as nat);
            vstd::bits::lemma_u64_shl_is_mul(1, shift);
            vstd::arithmetic::power2::lemma_pow2_strictly_increases(shift as nat, 63);
            vstd::arithmetic::power2::lemma2_to64_rest();
        }
        let offset = (1u64 << shift) as i64;
        let (lows, highs) = scale_ranges(&min, &max, offset);
        reverser.add_measured_seed(lows, highs);
    } else {
        let offset = 1i64 << 17;
        assert(1i64 << 17 == 0x20000) by (bit_vector);
        let (lows, highs) = scale_masked_ranges(&min, &max);
        proof {
            if bound == 0 {
                assert((0i32 & 0i32) == 0i32) by (bit_vector);
            }
            assert(bound * 0x20000 != 0);
        }
        reverser.add_modulo_measured_seeds(lows, highs, (bound as i64) * offset);
    }
}

/// Builds the ranges `min[j] * 2^17 ..= max[j] * 2^17 | 0x1FFFF`.
fn scale_masked_ranges(min: &Vec<i32>, max: &Vec<i32>) -> (r: (Vec<i64>, Vec<i64>))
    requires
        min.len() == max.len(),
    ensures
        r.0@ == scaled_lows(min@, 0x20000),
        r.1@ == scaled_highs(max@, 0x20000),
{
    let offset = 1i64 << 17;
    assert(1i64 << 17 == 0x20000) by (bit_vector);
    let mut lows: Vec<i64> = Vec::with_capacity(min.len());
    let mut highs: Vec<i64> = Vec::with_capacity(max.len());
    let mut i: usize = 0;
    while i < min.len()
        invariant
            min.len() == max.len(),
            offset == 0x20000,
            i <= min.len(),
            lows@ == scaled_lows(min@, 0x20000).take(i as int),
            highs@ == scaled_highs(max@, 0x20000).take(i as int),
        decreases min.len() - i,
    {
        let lo = (min[i] as i64) * offset;
        let m = max[i] as i64;
        let scaled = m * offset;
        let hi = scaled | 0x1FFFF;
        assert(hi == scaled + 0x1FFFF) by (bit_vector)
            requires
                hi == scaled | 0x1FFFF,
                scaled == m * 0x20000,
                -0x8000_0000 <= m <= 0x7FFF_FFFF,
        ;
        lows.push(lo);
        highs.push(hi);
        i = i + 1;
        assert(lows@ =~= scaled_lows(min@, 0x20000).take(i as int));
        assert(highs@ =~= scaled_highs(max@, 0x20000).take(i as int));
    }
    assert(lows@ =~= scaled_lows(min@, 0x20000));
    assert(highs@ =~= scaled_highs(max@, 0x20000));
    (lows, highs)
}

/// Adds the outputs `min[j] ..= max[j]` of a call to Java's `nextInt()`: the top 32 of the
/// 48 seed bits.
pub fn add_next_int_call(reverser: &mut RandomReverser, min: Vec<i32>, max: Vec<i32>)
    requires
        old(reverser).wf(),
        min.len() == max.len(),
        min.len() >= 1,
        old(reverser).room_for(min.len() as nat, 1),
    ensures
        final(reverser).wf(),
        old(reverser).measured_by(final(reverser), scaled_lows(min@, 0x10000), scaled_highs(max@, 0x10000), old(reverser).modulus@),
{
    let offset = 1i64 << 16;
    assert(1i64 << 16 == 0x10000) by (bit_vector);
    let (lows, highs) = scale_ranges(&min, &max, offset);
    reverser.add_measured_seed(lows, highs);
}

/// Adds the output `value` of a call to Java's `nextBoolean()`: the top seed bit.
pub fn add_next_boolean_call(reverser: &mut RandomReverser, value: bool)
    requires
        old(reverser).wf(),
        old(reverser).room_for(1, 1),
    ensures
        final(reverser).wf(),
        old(reverser).measured_by(
            final(reverser),
            seq![if value { 0x8000_0000_0000i64 } else { 0i64 }],
            seq![if value { 0xFFFF_FFFF_FFFFi64 } else { 0x7FFF_FFFF_FFFFi64 }],
            old(reverser).modulus@,
        ),
{
    proof {
        vstd::std_specs::bits::axiom_u32_trailing_zeros(2u32);
        assert((2u32 >> 0u32) & 1u32 == 0u32) by (bit_vector);
        assert((2u32 >> 1u32) & 1u32 == 1u32) by (bit_vector);
        assert(u32_trailing_zeros(2u32) == 1);
        assert(is_pow2_bound(2)) by (bit_vector);
        vstd::arithmetic::power2::lemma2_to64_rest();
        assert(bound_offset(2) == 0x8000_0000_0000);
    }
    let ghost v: int = if value { 1 } else { 0 };
    if value {
        let lo = vec![1i32];
        let hi = vec![1i32];
        assert(lo@ =~= seq![1i32]);
        assert(hi@ =~= seq![1i32]);
        add_bound_next_int_call(reverser, 2, lo, hi);
        proof {
            assert(scaled_lows(seq![1i32], 0x8000_0000_0000) =~= seq![0x8000_0000_0000i64]);
            assert(scaled_highs(seq![1i32], 0x8000_0000_0000) =~= seq![0xFFFF_FFFF_FFFFi64]);
        }
    } else {
        let lo = vec![0i32];
        let hi = vec![0i32];
        assert(lo@ =~= seq![0i32]);
        assert(hi@ =~= seq![0i32]);
        add_bound_next_int_call(reverser, 2, lo, hi);
        proof {
            assert(scaled_lows(seq![0i32], 0x8000_0000_0000) =~= seq![0i64]);
            assert(scaled_highs(seq![0i32], 0x8000_0000_0000) =~= seq![0x7FFF_FFFF_FFFFi64]);
        }
    }
}


/// The top 32 bits of `m`, read as an unsigned number.
pub open spec fn high_word(m: i64) -> int {
    ((m as u64) >> 32u64) as int
}

/// Whether bit 31 of `m` is set: then the low half, drawn as a signed `int`, lowered the high
/// half by one.
pub open spec fn low_sign(m: i64) -> bool {
    m & 0x8000_0000 != 0
}

/// The lower ends of the seed ranges of the first call of `nextLong()`.
pub open spec fn long_first_lows(min: Seq<i64>) -> Seq<i64> {
    Seq::new(min.len(), |j: int| ((high_word(min[j]) + if low_sign(min[j]) { 1int } else { 0int }) * 0x10000) as i64)
}

/// The upper ends of the seed ranges of the first call of `nextLong()`.
pub open spec fn long_first_highs(max: Seq<i64>) -> Seq<i64> {
    Seq::new(max.len(), |j: int| ((high_word(max[j]) + if low_sign(max[j]) { 2int } else { 1int }) * 0x10000) as i64)
}

/// The range `lo ..= hi` spans less than 2^32 values, so its low halves bound the second call.
pub open spec fn keeps_pair(lo: i64, hi: i64) -> bool {
    0 <= hi - lo < 0x1_0000_0000
}

/// The seed ranges of the second call of `nextLong()`, from the first `n` ranges that span
/// less than 2^32 values.
pub open spec fn long_second(min: Seq<i64>, max: Seq<i64>, n: nat) -> (Seq<i64>, Seq<i64>)
    decreases n,
{
    if n == 0 {
        (Seq::empty(), Seq::empty())
    } else {
        let p = long_second(min, max, (n - 1) as nat);
        let j = n - 1;
        if keeps_pair(min[j], max[j]) {
            (
                p.0.push(((min[j] & 0xFFFF_FFFF) * 0x10000) as i64),
                p.1.push((((max[j] & 0xFFFF_FFFF) + 1) * 0x10000 - 1) as i64),
            )
        } else {
            p
        }
    }
}

proof fn lemma_long_second_len(min: Seq<i64>, max: Seq<i64>, n: nat)
    ensures
        long_second(min, max, n).0.len() == long_second(min, max, n).1.len(),
        long_second(min, max, n).0.len() <= n,
    decreases n,
{
    if n > 0 {
        lemma_long_second_len(min, max, (n - 1) as nat);
    }
}

/// Adds the outputs `min[j] ..= max[j]` of a call to Java's `nextLong()`, which draws two
/// `int`s: the first bounds the seed by the high halves, the second by the low halves of the
/// ranges that span less than 2^32 values.
pub fn add_next_long_call(reverser: &mut RandomReverser, min: Vec<i64>, max: Vec<i64>)
    requires
        old(reverser).wf(),
        min.len() == max.len(),
        min.len() >= 1,
        forall|j: int| 0 <= j < min.len() ==> i64::MIN <= #[trigger] max@[j] - min@[j] <= i64::MAX,
        long_second(min@, max@, min.len() as nat).0.len() >= 1,
        old(reverser).current_call_index < i64::MAX - 1,
        old(reverser).call_indices.len() > 0 ==> 0 <= old(reverser).current_call_index + 1 - old(reverser).call_indices@[0]
            && old(reverser).current_call_index + 2 - old(reverser).call_indices@[0] <= i64::MAX,
        old(reverser).bounds.len() * min.len() * min.len() <= usize::MAX,
        (old(reverser).dimensions + 3) * (old(reverser).dimensions + 2) <= usize::MAX,
    ensures
        final(reverser).wf(),
        exists|mid: RandomReverser|
            #[trigger] old(reverser).measured_by(&mid, long_first_lows(min@), long_first_highs(max@), old(reverser).modulus@)
                && mid.modulus == old(reverser).modulus
                && mid.measured_by(
                final(reverser),
                long_second(min@, max@, min.len() as nat).0,
                long_second(min@, max@, min.len() as nat).1,
                old(reverser).modulus@,
            ),
{
    let mut firsts_min: Vec<i64> = Vec::with_capacity(min.len());
    let mut firsts_max: Vec<i64> = Vec::with_capacity(max.len());
    let mut i: usize = 0;
    while i < min.len()
        invariant
            min.len() == max.len(),
            i <= min.len(),
            firsts_min@ == long_first_lows(min@).take(i as int),
            firsts_max@ == long_first_highs(max@).take(i as int),
        decreases min.len() - i,
    {
        let lo = min[i];
        let hi = max[i];
        let lo_sign = (lo & 0x8000_0000) != 0;
        let hi_sign = (hi & 0x8000_0000) != 0;
        let lo_top = lo.ushr(32);
        let hi_top = hi.ushr(32);
        proof {
            let ul = lo as u64;
            let uh = hi as u64;
            assert(ul >> 32u64 <= 0xFFFF_FFFF) by (bit_vector);
            assert(uh >> 32u64 <= 0xFFFF_FFFF) by (bit_vector);
        }
        let lo_add: i64 = if lo_sign { 1 } else { 0 };
        let hi_add: i64 = if hi_sign { 2 } else { 1 };
        let x = lo_top + lo_add;
        let y = hi_top + hi_add;
        let a = x << 16;
        let b = y << 16;
        assert(a == x * 0x10000) by (bit_vector)
            requires
                a == x << 16,
                0 <= x <= 0x1_0000_0001,
        ;
        assert(b == y * 0x10000) by (bit_vector)
            requires
                b == y << 16,
                0 <= y <= 0x1_0000_0001,
        ;
        firsts_min.push(a);
        firsts_max.push(b);
        i = i + 1;
        assert(firsts_min@ =~= long_first_lows(min@).take(i as int));
        assert(firsts_max@ =~= long_first_highs(max@).take(i as int));
    }
    assert(firsts_min@ =~= long_first_lows(min@));
    assert(firsts_max@ =~= long_first_highs(max@));
    let ghost before = *reverser;
    proof {
        let l = reverser.bounds.len() as int;
        let n = min.len() as int;
        let d = reverser.dimensions as int;
        assert(l * n <= l * n * n) by (nonlinear_arith)
            requires
                n >= 1,
                l >= 0,
        ;
        assert((d + 2) * (d + 1) <= (d + 3) * (d + 2)) by (nonlinear_arith)
            requires
                d >= 0,
        ;
    }
    reverser.add_measured_seed(firsts_min, firsts_max);
    let ghost mid = *reverser;

    let mut second_seeds_min: Vec<i64> = Vec::new();
    let mut second_seeds_max: Vec<i64> = Vec::new();
    let mut j: usize = 0;
    while j < min.len()
        invariant
            min.len() == max.len(),
            forall|k: int| 0 <= k < min.len() ==> i64::MIN <= #[trigger] max@[k] - min@[k] <= i64::MAX,
            j <= min.len(),
            second_seeds_min@ == long_second(min@, max@, j as nat).0,
            second_seeds_max@ == long_second(min@, max@, j as nat).1,
        decreases min.len() - j,
    {
        let lo = min[j];
        let hi = max[j];
        assert(i64::MIN <= max@[j as int] - min@[j as int] <= i64::MAX);
        if hi - lo < (1i64 << 32) && 0 <= hi - lo {
            let lw = lo & 0xFFFF_FFFF;
            let hw = hi & 0xFFFF_FFFF;
            assert(0 <= lw <= 0xFFFF_FFFF && 0 <= hw <= 0xFFFF_FFFF) by (bit_vector)
                requires
                    lw == lo & 0xFFFF_FFFF,
                    hw == hi & 0xFFFF_FFFF,
            ;
            let a = lw << 16;
            let h1 = hw + 1;
            let hs = h1 << 16;
            assert(a == lw * 0x10000) by (bit_vector)
                requires
                    a == lw << 16,
                    0 <= lw <= 0xFFFF_FFFF,
            ;
            assert(hs == h1 * 0x10000) by (bit_vector)
                requires
                    hs == h1 << 16,
                    1 <= h1 <= 0x1_0000_0000,
            ;
            let b = hs - 1;
            second_seeds_min.push(a);
            second_seeds_max.push(b);
        }
        proof {
            assert(1i64 << 32 == 0x1_0000_0000) by (bit_vector);
        }
        j = j + 1;
    }
    proof {
        lemma_long_second_len(min@, max@, min.len() as nat);
        let l = old(reverser).bounds.len() as int;
        let n = min.len() as int;
        let n2 = second_seeds_min.len() as int;
        assert(l * n * n2 <= l * n * n) by (nonlinear_arith)
            requires
                0 <= n2 <= n,
                l >= 0,
        ;
        assert(mid.bounds.len() == l * n) by {
            assert(crate::reversal::random_reverser::bounds_view(mid.bounds@).len() == mid.bounds.len());
        }
    }
    reverser.add_measured_seed(second_seeds_min, second_seeds_max);
    proof {
        assert(before.measured_by(&mid, long_first_lows(min@), long_first_highs(max@), before.modulus@));
    }
}


/// The lower ends of the seed ranges of the first call of `nextDouble()`, from the results
/// scaled by 2^53: their top 26 bits, above the 22 bits of the seed that the call drops.
pub open spec fn double_first_lows(min: Seq<i64>) -> Seq<i64> {
    Seq::new(min.len(), |j: int| (min[j] << 27i64) << 22i64)
}

/// The upper ends of the seed ranges of the first call of `nextDouble()`.
pub open spec fn double_first_highs(max: Seq<i64>) -> Seq<i64> {
    Seq::new(max.len(), |j: int| ((max[j] << 27i64) << 22i64) | 0x3F_FFFF)
}

/// The range `lo ..= hi` of scaled results spans less than 2^27 values (modulo 2^53, with
/// the remainder taking the sign of `hi - lo`), so its low 27 bits bound the second call.
pub open spec fn keeps_double_pair(lo: i64, hi: i64) -> bool {
    let d = hi - lo;
    (if d >= 0 { d % 0x20_0000_0000_0000 } else { -((-d) % 0x20_0000_0000_0000) }) < 0x800_0000
}

/// The seed ranges of the second call of `nextDouble()`, from the first `n` ranges that
/// [keeps_double_pair] keeps: their low 27 bits, above the 21 bits that the call drops.
pub open spec fn double_second(min: Seq<i64>, max: Seq<i64>, n: nat) -> (Seq<i64>, Seq<i64>)
    decreases n,
{
    if n == 0 {
        (Seq::empty(), Seq::empty())
    } else {
        let p = double_second(min, max, (n - 1) as nat);
        let j = n - 1;
        if keeps_double_pair(min[j], max[j]) {
            (p.0.push((min[j] & 0x7FF_FFFF) << 21i64), p.1.push(((max[j] & 0x7FF_FFFF) << 21i64) | 0x1F_FFFF))
        } else {
            p
        }
    }
}

proof fn lemma_double_second_len(min: Seq<i64>, max: Seq<i64>, n: nat)
    ensures
        double_second(min, max, n).0.len() == double_second(min, max, n).1.len(),
        double_second(min, max, n).0.len() <= n,
    decreases n,
{
    if n > 0 {
        lemma_double_second_len(min, max, (n - 1) as nat);
    }
}

/// How many ranges [keeps_double_pair] keeps: the number of ranges of the second call of
/// `nextDouble()`.
pub fn double_second_count(min: &Vec<i64>, max: &Vec<i64>) -> (n: usize)
    requires
        min.len() == max.len(),
        forall|j: int| 0 <= j < min.len() ==> i64::MIN <= #[trigger] max@[j] - min@[j] <= i64::MAX,
    ensures
        n == double_second(min@, max@, min.len() as nat).0.len(),
{
    let mut n: usize = 0;
    let mut j: usize = 0;
    while j < min.len()
        invariant
            min.len() == max.len(),
            forall|k: int| 0 <= k < min.len() ==> i64::MIN <= #[trigger] max@[k] - min@[k] <= i64::MAX,
            j <= min.len(),
            n == double_second(min@, max@, j as nat).0.len(),
            n <= j,
        decreases min.len() - j,
    {
        assert(i64::MIN <= max@[j as int] - min@[j as int] <= i64::MAX);
        let span = max[j] - min[j];
        let modulus: i64 = 0x20_0000_0000_0000;
        let limit: i64 = 0x800_0000;
        if span % modulus < limit {
            n = n + 1;
        }
        j = j + 1;
    }
    n
}

/// Adds the results `min[j] ..= max[j]`, scaled by 2^53, of a call to Java's `nextDouble()`,
/// which draws two seeds: the first is bounded by the top 26 bits of the ranges, the second
/// by the low 27 bits of the ranges that [keeps_double_pair] keeps.
pub fn add_next_double_seeds(reverser: &mut RandomReverser, min: Vec<i64>, max: Vec<i64>)
    requires
        old(reverser).wf(),
        min.len() == max.len(),
        min.len() >= 1,
        forall|j: int| 0 <= j < min.len() ==> i64::MIN <= #[trigger] max@[j] - min@[j] <= i64::MAX,
        double_second(min@, max@, min.len() as nat).0.len() >= 1,
        old(reverser).current_call_index < i64::MAX - 1,
        old(reverser).call_indices.len() > 0 ==> 0 <= old(reverser).current_call_index + 1 - old(reverser).call_indices@[0]
            && old(reverser).current_call_index + 2 - old(reverser).call_indices@[0] <= i64::MAX,
        old(reverser).bounds.len() * min.len() * min.len() <= usize::MAX,
        (old(reverser).dimensions + 3) * (old(reverser).dimensions + 2) <= usize::MAX,
    ensures
        final(reverser).wf(),
        exists|mid: RandomReverser|
            #[trigger] old(reverser).measured_by(&mid, double_first_lows(min@), double_first_highs(max@), old(reverser).modulus@)
                && mid.modulus == old(reverser).modulus
                && mid.measured_by(
                final(reverser),
                double_second(min@, max@, min.len() as nat).0,
                double_second(min@, max@, min.len() as nat).1,
                old(reverser).modulus@,
            ),
{
    let mut firsts_min: Vec<i64> = Vec::with_capacity(min.len());
    let mut firsts_max: Vec<i64> = Vec::with_capacity(max.len());
    let mut i: usize = 0;
    while i < min.len()
        invariant
            min.len() == max.len(),
            i <= min.len(),
            firsts_min@ == double_first_lows(min@).take(i as int),
            firsts_max@ == double_first_highs(max@).take(i as int),
        decreases min.len() - i,
    {
        let lo = min[i];
        let hi = max[i];
        firsts_min.push((lo << 27i64) << 22i64);
        firsts_max.push(((hi << 27i64) << 22i64) | 0x3F_FFFF);
        i = i + 1;
        assert(firsts_min@ =~= double_first_lows(min@).take(i as int));
        assert(firsts_max@ =~= double_first_highs(max@).take(i as int));
    }
    assert(firsts_min@ =~= double_first_lows(min@));
    assert(firsts_max@ =~= double_first_highs(max@));
    let ghost before = *reverser;
    proof {
        let l = reverser.bounds.len() as int;
        let n = min.len() as int;
        let d = reverser.dimensions as int;
        assert(l * n <= l * n * n) by (nonlinear_arith)
            requires
                n >= 1,
                l >= 0,
        ;
        assert((d + 2) * (d + 1) <= (d + 3) * (d + 2)) by (nonlinear_arith)
            requires
                d >= 0,
        ;
    }
    reverser.add_measured_seed(firsts_min, firsts_max);
    let ghost mid = *reverser;
    let mut second_seeds_min: Vec<i64> = Vec::new();
    let mut second_seeds_max: Vec<i64> = Vec::new();
    let mut j: usize = 0;
    while j < min.len()
        invariant
            min.len() == max.len(),
            forall|k: int| 0 <= k < min.len() ==> i64::MIN <= #[trigger] max@[k] - min@[k] <= i64::MAX,
            j <= min.len(),
            second_seeds_min@ == double_second(min@, max@, j as nat).0,
            second_seeds_max@ == double_second(min@, max@, j as nat).1,
        decreases min.len() - j,
    {
        let lo = min[j];
        let hi = max[j];
        assert(i64::MIN <= max@[j as int] - min@[j as int] <= i64::MAX);
        let span = hi - lo;
        let modulus: i64 = 0x20_0000_0000_0000;
        let limit: i64 = 0x800_0000;
        let rem = span % modulus;
        if rem < limit {
            second_seeds_min.push((lo & 0x7FF_FFFF) << 21i64);
            second_seeds_max.push(((hi & 0x7FF_FFFF) << 21i64) | 0x1F_FFFF);
        }
        j = j + 1;
    }
    proof {
        lemma_double_second_len(min@, max@, min.len() as nat);
        let l = old(reverser).bounds.len() as int;
        let n = min.len() as int;
        let n2 = second_seeds_min.len() as int;
        assert(l * n * n2 <= l * n * n) by (nonlinear_arith)
            requires
                0 <= n2 <= n,
                l >= 0,
        ;
        assert(mid.bounds.len() == l * n) by {
            assert(crate::reversal::random_reverser::bounds_view(mid.bounds@).len() == mid.bounds.len());
        }
    }
    reverser.add_measured_seed(second_seeds_min, second_seeds_max);
    proof {
        assert(before.measured_by(&mid, double_first_lows(min@), double_first_highs(max@), before.modulus@));
    }
}

proof fn lemma_long_halves(l: i64)
    ensures
        high_word(l) == (if l >= 0 { l / 0x1_0000_0000 } else { (l + 0x1_0000_0000_0000_0000) / 0x1_0000_0000 }),
        low_sign(l) == (l % 0x1_0000_0000 >= 0x8000_0000),
        (l & 0xFFFF_FFFF) as int == l % 0x1_0000_0000,
{
    let v = l as u64;
    assert((l & 0xFFFF_FFFF) as int == v % 0x1_0000_0000) by (bit_vector)
        requires
            v == l as u64,
    ;
    assert(v >> 32u64 == v / 0x1_0000_0000) by (bit_vector)
        requires
            v == l as u64,
    ;
    assert(l >= 0 ==> v as int == l as int) by (bit_vector)
        requires
            v == l as u64,
    ;
    assert(l < 0 ==> v as int == l + 0x1_0000_0000_0000_0000) by (bit_vector)
        requires
            v == l as u64,
    ;
    assert((l & 0x8000_0000 != 0) == (v % 0x1_0000_0000 >= 0x8000_0000)) by (bit_vector)
        requires
            v == l as u64,
    ;
    vstd::arithmetic::div_mod::lemma_mod_multiples_vanish(0x1_0000_0000, l as int, 0x1_0000_0000);
}

/// `long_of_draws` is `high * 2^32 + low`, brought into the range of `i64` by a multiple
/// of 2^64.
proof fn lemma_long_of_draws_value(high: i32, low: i32)
    ensures
        ({
            let x = high * 0x1_0000_0000 + low;
            long_of_draws(high, low) as int == if x > i64::MAX {
                x - 0x1_0000_0000_0000_0000
            } else if x < i64::MIN {
                x + 0x1_0000_0000_0000_0000
            } else {
                x
            }
        }),
{
    let y = high * 0x1_0000_0000;
    let m: int = 0x1_0000_0000_0000_0000;
    if y >= 0 {
        vstd::arithmetic::div_mod::lemma_small_mod(y as nat, m as nat);
    } else {
        vstd::arithmetic::div_mod::lemma_small_mod((y + m) as nat, m as nat);
        vstd::arithmetic::div_mod::lemma_mod_add_multiples_vanish(y, m);
    }
    assert((high as i64).wrapping_mul(0x1_0000_0000) as int == y);
}

/// A state `seed` below 2^48, as the first draw of `nextLong()` leaves it, lets `nextLong()`
/// return `l` (with some second draw) exactly when it lies, up to 2^48, in the first 2^16
/// states of the range that `add_next_long_call` adds first for `l`; that range holds one
/// state more, its upper end.
pub proof fn lemma_next_long_first_range(seed: i64, l: i64)
    requires
        0 <= seed < 0x1_0000_0000_0000,
    ensures
        long_first_highs(seq![l])[0] == long_first_lows(seq![l])[0] + 0x10000,
        (exists|b: i32| #[trigger] long_of_draws(seed_bits(seed, 32), b) == l) <==> in_range_mod(
            seed as int,
            long_first_lows(seq![l])[0] as int,
            long_first_highs(seq![l])[0] - 1,
            0x1_0000_0000_0000,
        ),
{
    let t32: int = 0x1_0000_0000;
    let t64: int = 0x1_0000_0000_0000_0000;
    let t48: int = 0x1_0000_0000_0000;
    lemma_long_halves(l);
    let q = (l as int) / t32;
    let r = (l as int) % t32;
    vstd::arithmetic::div_mod::lemma_fundamental_div_mod(l as int, t32);
    let sgn: int = if low_sign(l) { 1 } else { 0 };
    let hw = high_word(l);
    if l < 0 {
        vstd::arithmetic::div_mod::lemma_fundamental_div_mod(l + t64, t32);
        vstd::arithmetic::div_mod::lemma_mod_multiples_vanish(0x1_0000_0000, l as int, t32);
        assert(hw == q + t32);
    } else {
        assert(hw == q);
    }
    assert(-0x8000_0000 <= q < 0x8000_0000);
    let h = hw + sgn;
    assert(0 <= h <= t32);
    let lo = h * 0x10000;
    let hi = (h + 1) * 0x10000;
    assert(long_first_lows(seq![l])[0] as int == lo);
    assert(long_first_highs(seq![l])[0] as int == hi);
    // the first draw
    lemma_top_bits_32(seed);
    let a = seed_bits(seed, 32);
    let u = seed / 0x10000;
    vstd::arithmetic::div_mod::lemma_fundamental_div_mod(seed as int, 0x10000);
    let w = seed % 0x10000;
    assert(a as int == u || a as int == u - t32);
    // `nextLong()` can return `l` after the draw `a` exactly when `a` is `q + sgn` up to 2^32
    if exists|b: i32| #[trigger] long_of_draws(a, b) == l {
        let b = choose|b: i32| #[trigger] long_of_draws(a, b) == l;
        lemma_long_of_draws_value(a, b);
        let c: int = if a * t32 + b > i64::MAX { -1 } else if a * t32 + b < i64::MIN { 1 } else { 0 };
        assert(a * t32 + b + c * t64 == q * t32 + r);
        assert(b - r == (q - a - c * t32) * t32);
        let z = q - a - c * t32;
        assert(z == 0 || z == -1) by (nonlinear_arith)
            requires
                b - r == z * 0x1_0000_0000,
                -0x8000_0000 <= b < 0x8000_0000,
                0 <= r < 0x1_0000_0000,
        ;
        assert(a == q + sgn - c * t32);
        // so `u` is `h` up to 2^32, and the state lies in the range
        if u == h {
            assert(lo <= shifted(seed as int, 0, t48) <= hi - 1);
        } else {
            let e: int = if a as int == u { 0 } else { 1 };
            let f: int = if hw == q { 0 } else { 1 };
            assert(u - h == (e - f - c) * 0x1_0000_0000);
            let d = e - f - c;
            assert(d == -1) by (nonlinear_arith)
                requires
                    u - h == d * 0x1_0000_0000,
                    0 <= u < 0x1_0000_0000,
                    0 <= h <= 0x1_0000_0000,
                    u != h,
            ;
            assert(h == t32 && u == 0);
            assert(lo <= shifted(seed as int, 1, t48) <= hi - 1);
        }
    }
    if in_range_mod(seed as int, lo, hi - 1, t48) {
        let k = choose|k: int| lo <= #[trigger] shifted(seed as int, k, t48) <= hi - 1;
        assert(u + k * 0x1_0000_0000 == h) by (nonlinear_arith)
            requires
                lo <= seed + k * 0x1_0000_0000_0000 <= hi - 1,
                lo == h * 0x10000,
                hi == (h + 1) * 0x10000,
                seed == 0x10000 * u + w,
                0 <= w < 0x10000,
        ;
        // the draw is `q + sgn` up to 2^32: the second draw `r - sgn * 2^32` completes `l`
        let b = (r - sgn * t32) as i32;
        assert(b as int == r - sgn * t32);
        lemma_long_of_draws_value(a, b);
        let e: int = if a as int == u { 0 } else { 1 };
        let f: int = if hw == q { 0 } else { 1 };
        let m = f - e - k;
        assert(a - q - sgn == m * t32);
        assert(a * t32 + b == l + m * t64);
        assert(long_of_draws(a, b) == l);
    }
}

/// A state `seed` below 2^48, as the second draw of `nextLong()` leaves it, lets `nextLong()`
/// return `l` (with some first draw) exactly when it lies, up to 2^48, in the range that
/// `add_next_long_call` adds second for `l`.
pub proof fn lemma_next_long_second_range(seed: i64, l: i64)
    requires
        0 <= seed < 0x1_0000_0000_0000,
    ensures
        long_second(seq![l], seq![l], 1).0.len() == 1,
        (exists|a: i32| #[trigger] long_of_draws(a, seed_bits(seed, 32)) == l) <==> in_range_mod(
            seed as int,
            long_second(seq![l], seq![l], 1).0[0] as int,
            long_second(seq![l], seq![l], 1).1[0] as int,
            0x1_0000_0000_0000,
        ),
{
    let t32: int = 0x1_0000_0000;
    let t64: int = 0x1_0000_0000_0000_0000;
    let t48: int = 0x1_0000_0000_0000;
    lemma_long_halves(l);
    let q = (l as int) / t32;
    let r = (l as int) % t32;
    vstd::arithmetic::div_mod::lemma_fundamental_div_mod(l as int, t32);
    let sgn: int = if low_sign(l) { 1 } else { 0 };
    assert(-0x8000_0000 <= q < 0x8000_0000);
    assert(keeps_pair(l, l));
    assert(long_second(seq![l], seq![l], 0).0.len() == 0);
    let lo = r * 0x10000;
    let hi = (r + 1) * 0x10000 - 1;
    assert(long_second(seq![l], seq![l], 1).0[0] as int == lo);
    assert(long_second(seq![l], seq![l], 1).1[0] as int == hi);
    lemma_top_bits_32(seed);
    let b = seed_bits(seed, 32);
    let u = seed / 0x10000;
    vstd::arithmetic::div_mod::lemma_fundamental_div_mod(seed as int, 0x10000);
    let w = seed % 0x10000;
    let e: int = if b as int == u { 0 } else { 1 };
    assert(b as int == u - e * t32);
    if exists|a: i32| #[trigger] long_of_draws(a, b) == l {
        let a = choose|a: i32| #[trigger] long_of_draws(a, b) == l;
        lemma_long_of_draws_value(a, b);
        let c: int = if a * t32 + b > i64::MAX { -1 } else if a * t32 + b < i64::MIN { 1 } else { 0 };
        assert(a * t32 + b + c * t64 == q * t32 + r);
        let z = q - a - c * t32;
        assert(b - r == z * t32);
        assert(u - r == (z + e) * 0x1_0000_0000);
        let d = z + e;
        assert(d == 0) by (nonlinear_arith)
            requires
                u - r == d * 0x1_0000_0000,
                0 <= u < 0x1_0000_0000,
                0 <= r < 0x1_0000_0000,
        ;
        assert(lo <= shifted(seed as int, 0, t48) <= hi);
    }
    if in_range_mod(seed as int, lo, hi, t48) {
        let k = choose|k: int| lo <= #[trigger] shifted(seed as int, k, t48) <= hi;
        assert(u + k * 0x1_0000_0000 == r) by (nonlinear_arith)
            requires
                lo <= seed + k * 0x1_0000_0000_0000 <= hi,
                lo == r * 0x10000,
                hi == (r + 1) * 0x10000 - 1,
                seed == 0x10000 * u + w,
                0 <= w < 0x10000,
        ;
        assert(k == 0) by (nonlinear_arith)
            requires
                u + k * 0x1_0000_0000 == r,
                0 <= u < 0x1_0000_0000,
                0 <= r < 0x1_0000_0000,
        ;
        // the first draw `q + sgn`, brought into the range of `i32`, completes `l`
        let g: int = if q + sgn >= 0x8000_0000 { q + sgn - t32 } else { q + sgn };
        let a = g as i32;
        assert(a as int == g);
        lemma_long_of_draws_value(a, b);
        assert(b as int == r - e * t32);
        assert(e == sgn);
        let m: int = if q + sgn >= 0x8000_0000 { -1 } else { 0 };
        assert(a * t32 + b == l + m * t64);
        assert(long_of_draws(a, b) == l);
    }
}

/// A state `seed` below 2^48 makes a 31-bit draw that `nextInt(bound)`, for a bound that is
/// not a power of two, turns into `v` (the draw modulo `bound`) exactly when it lies, up to
/// `bound * 2^17`, in the range `v * 2^17 ..= v * 2^17 + 2^17 - 1` that
/// `add_bound_next_int_call` adds for `v`.
pub proof fn lemma_next_bound_int_range(seed: i64, bound: i32, v: i32)
    requires
        0 <= seed < 0x1_0000_0000_0000,
        1 <= bound,
        0 <= v < bound,
    ensures
        (rem_trunc(seed_bits(seed, 31) as int, bound as int) == v) <==> in_range_mod(
            seed as int,
            scaled_lows(seq![v], 0x20000)[0] as int,
            scaled_highs(seq![v], 0x20000)[0] as int,
            bound * 0x20000,
        ),
{
    let u = (seed as u64) >> 17u64;
    assert(u == (seed as u64) / 0x20000) by (bit_vector)
        requires
            u == (seed as u64) >> 17u64,
    ;
    assert(u < 0x8000_0000) by (bit_vector)
        requires
            u == (seed as u64) >> 17u64,
            0 <= seed < 0x1_0000_0000_0000,
    ;
    assert(seed_bits(seed, 31) == (u as i32));
    let t = seed / 0x20000;
    assert(seed_bits(seed, 31) as int == t);
    vstd::arithmetic::div_mod::lemma_fundamental_div_mod(seed as int, 0x20000);
    let w = seed % 0x20000;
    let lo = v * 0x20000;
    let hi = v * 0x20000 + 0x1FFFF;
    assert(scaled_lows(seq![v], 0x20000)[0] as int == lo);
    assert(scaled_highs(seq![v], 0x20000)[0] as int == hi);
    let m = bound * 0x20000;
    assert(t >= 0);
    assert(rem_trunc(t, bound as int) == t % (bound as int));
    vstd::arithmetic::div_mod::lemma_fundamental_div_mod(t, bound as int);
    let q = t / (bound as int);
    if t % (bound as int) == v {
        assert(seed - q * m == lo + w) by (nonlinear_arith)
            requires
                t == bound * q + v,
                seed == 0x20000 * t + w,
                m == bound * 0x20000,
                lo == v * 0x20000,
        ;
        assert((-q) * m == -(q * m)) by (nonlinear_arith);
        assert(lo <= shifted(seed as int, -q, m) <= hi);
    }
    if in_range_mod(seed as int, lo, hi, m) {
        let k = choose|k: int| lo <= #[trigger] shifted(seed as int, k, m) <= hi;
        let z = t + k * bound - v;
        assert(z * 0x20000 == seed + k * m - lo - w) by (nonlinear_arith)
            requires
                z == t + k * bound - v,
                seed == 0x20000 * t + w,
                m == bound * 0x20000,
                lo == v * 0x20000,
        ;
        assert(z == 0) by (nonlinear_arith)
            requires
                z * 0x20000 == seed + k * m - lo - w,
                lo <= seed + k * m <= hi,
                hi == lo + 0x1FFFF,
                0 <= w < 0x20000,
        ;
        assert((-k) * bound == -(k * bound)) by (nonlinear_arith);
        assert(t == (-k) * bound + v);
        vstd::arithmetic::div_mod::lemma_fundamental_div_mod_converse(t, bound as int, -k, v as int);
    }
}

/// A state `seed` below 2^48 makes `nextInt(bound)`, for a power-of-two bound `2^k`, return
/// `v` exactly when it lies, up to 2^48, in the range `v * 2^(48 - k) ..= (v + 1) * 2^(48 - k) - 1`
/// that `add_bound_next_int_call` adds for `v`.
pub proof fn lemma_next_pow2_bound_int_range(seed: i64, bound: i32, v: i32)
    requires
        0 <= seed < 0x1_0000_0000_0000,
        1 <= bound,
        is_pow2_bound(bound),
        0 <= v < bound,
    ensures
        ((((bound as int * seed_bits(seed, 31) as int) as i64) >> 31u64) as i32 == v) <==> in_range_mod(
            seed as int,
            scaled_lows(seq![v], bound_offset(bound))[0] as int,
            scaled_highs(seq![v], bound_offset(bound))[0] as int,
            0x1_0000_0000_0000,
        ),
{
    let bb = bound as u32;
    vstd::std_specs::bits::axiom_u32_trailing_zeros(bb);
    let tz = u32_trailing_zeros(bb);
    assert(bb != 0);
    assert(bb == 1u32 << tz) by (bit_vector)
        requires
            (bound & ((-bound) as i32)) == bound,
            bound >= 1,
            bb == bound as u32,
            tz < 32,
            (bb >> tz) & 1u32 == 1u32,
    ;
    vstd::bits::lemma_u32_pow2_no_overflow(tz as nat);
    vstd::bits::lemma_u32_shl_is_mul(1u32, tz);
    assert(bound as int == pow2(tz as nat));
    vstd::arithmetic::power2::lemma2_to64();
    vstd::arithmetic::power2::lemma2_to64_rest();
    if tz > 31 {
        vstd::arithmetic::power2::lemma_pow2_strictly_increases(31, tz as nat);
    }
    assert(tz <= 30);
    let k = tz as nat;
    let off = pow2((48 - k) as nat) as int;
    assert(bound_offset(bound) == off);
    vstd::arithmetic::power2::lemma_pow2_adds(k, (31 - k) as nat);
    vstd::arithmetic::power2::lemma_pow2_adds(17, (31 - k) as nat);
    vstd::arithmetic::power2::lemma_pow2_adds(k, (48 - k) as nat);
    assert((17 + (31 - k)) as nat == (48 - k) as nat);
    let p31 = pow2((31 - k) as nat) as int;
    vstd::arithmetic::power2::lemma_pow2_pos((31 - k) as nat);
    vstd::arithmetic::power2::lemma_pow2_pos(k);
    assert(bound * p31 == 0x8000_0000);
    assert(0x20000 * p31 == off);
    assert(bound * off == 0x1_0000_0000_0000);
    // the draw and the result
    let u = (seed as u64) >> 17u64;
    assert(u == (seed as u64) / 0x20000) by (bit_vector)
        requires
            u == (seed as u64) >> 17u64,
    ;
    assert(u < 0x8000_0000) by (bit_vector)
        requires
            u == (seed as u64) >> 17u64,
            0 <= seed < 0x1_0000_0000_0000,
    ;
    assert(seed_bits(seed, 31) == (u as i32));
    let t = seed / 0x20000;
    assert(seed_bits(seed, 31) as int == t);
    let x = bound * t;
    assert(0 <= x < 0x4000_0000_0000_0000) by (nonlinear_arith)
        requires
            x == bound * t,
            1 <= bound <= 0x7FFF_FFFF,
            0 <= t < 0x8000_0000,
    ;
    let xx = x as i64;
    let sh = xx >> 31u64;
    assert(sh as int == xx / 0x8000_0000) by (bit_vector)
        requires
            xx >= 0,
            sh == xx >> 31u64,
    ;
    vstd::arithmetic::div_mod::lemma_div_multiples_vanish(t as int, bound as int);
    vstd::arithmetic::div_mod::lemma_div_denominator(x as int, bound as int, p31);
    vstd::arithmetic::div_mod::lemma_div_denominator(seed as int, 0x20000, p31);
    assert(sh as int == (seed as int) / off);
    assert(0 <= sh < 0x8000_0000) by (nonlinear_arith)
        requires
            sh as int == xx / 0x8000_0000,
            0 <= xx < 0x4000_0000_0000_0000,
    ;
    let r = (sh as i32);
    assert(r as int == (seed as int) / off);
    let lo = v * off;
    let hi = v * off + off - 1;
    assert(0 <= lo && hi < 0x1_0000_0000_0000) by (nonlinear_arith)
        requires
            lo == v * off,
            hi == v * off + off - 1,
            0 <= v < bound,
            bound * off == 0x1_0000_0000_0000,
            off > 0,
    ;
    assert(scaled_lows(seq![v], off)[0] as int == lo);
    assert(scaled_highs(seq![v], off)[0] as int == hi);
    vstd::arithmetic::div_mod::lemma_fundamental_div_mod(seed as int, off);
    if r == v {
        assert(lo <= shifted(seed as int, 0, 0x1_0000_0000_0000) <= hi) by (nonlinear_arith)
            requires
                seed == off * v + (seed as int) % off,
                0 <= (seed as int) % off < off,
                lo == v * off,
                hi == v * off + off - 1,
        ;
    }
    if in_range_mod(seed as int, lo, hi, 0x1_0000_0000_0000) {
        let kk = choose|kk: int| lo <= #[trigger] shifted(seed as int, kk, 0x1_0000_0000_0000) <= hi;
        assert(kk == 0) by (nonlinear_arith)
            requires
                lo <= seed + kk * 0x1_0000_0000_0000 <= hi,
                0 <= lo,
                hi < 0x1_0000_0000_0000,
                0 <= seed < 0x1_0000_0000_0000,
        ;
        vstd::arithmetic::div_mod::lemma_fundamental_div_mod_converse(seed as int, off, v as int, seed - lo);
    }
}

/// `x + k * n`.
pub open spec fn shifted(x: int, k: int, n: int) -> int {
    x + k * n
}

/// `x` lies in `lo ..= hi` up to a multiple of `n`.
pub open spec fn in_range_mod(x: int, lo: int, hi: int, n: int) -> bool {
    exists|k: int| lo <= #[trigger] shifted(x, k, n) <= hi
}

/// The top 32 of the 48 seed bits, as `nextInt()` returns them, are the seed divided by
/// 2^16, read as a signed `int`.
proof fn lemma_top_bits_32(seed: i64)
    requires
        0 <= seed < 0x1_0000_0000_0000,
    ensures
        seed_bits(seed, 32) as int == if seed / 0x10000 < 0x8000_0000 {
            seed / 0x10000
        } else {
            seed / 0x10000 - 0x1_0000_0000
        },
{
    let u = (seed as u64) >> 16u64;
    assert(u == (seed as u64) / 0x10000) by (bit_vector)
        requires
            u == (seed as u64) >> 16u64,
    ;
    assert(u < 0x1_0000_0000) by (bit_vector)
        requires
            u == (seed as u64) >> 16u64,
            0 <= seed < 0x1_0000_0000_0000,
    ;
    assert((u as i32) as int == if u < 0x8000_0000 { u as int } else { u - 0x1_0000_0000 }) by (bit_vector)
        requires
            u < 0x1_0000_0000,
    ;
    assert(seed_bits(seed, 32) == (u as i32));
}

/// A state `seed` below 2^48 makes `nextInt()` return `v` exactly when it lies, up to 2^48,
/// in the range `v * 2^16 ..= v * 2^16 + 2^16 - 1` that `add_next_int_call` adds for `v`.
pub proof fn lemma_next_int_range(seed: i64, v: i32)
    requires
        0 <= seed < 0x1_0000_0000_0000,
    ensures
        (seed_bits(seed, 32) == v) <==> in_range_mod(
            seed as int,
            scaled_lows(seq![v], 0x10000)[0] as int,
            scaled_highs(seq![v], 0x10000)[0] as int,
            0x1_0000_0000_0000,
        ),
{
    lemma_top_bits_32(seed);
    let lo = v * 0x10000;
    let hi = v * 0x10000 + 0xFFFF;
    assert(scaled_lows(seq![v], 0x10000)[0] as int == lo);
    assert(scaled_highs(seq![v], 0x10000)[0] as int == hi);
    let h = seed / 0x10000;
    vstd::arithmetic::div_mod::lemma_fundamental_div_mod(seed as int, 0x10000);
    if seed_bits(seed, 32) == v {
        if h < 0x8000_0000 {
            assert(lo <= shifted(seed as int, 0, 0x1_0000_0000_0000) <= hi);
        } else {
            assert(lo <= shifted(seed as int, -1, 0x1_0000_0000_0000) <= hi);
        }
    }
    if in_range_mod(seed as int, lo, hi, 0x1_0000_0000_0000) {
        let k = choose|k: int| lo <= #[trigger] shifted(seed as int, k, 0x1_0000_0000_0000) <= hi;
        assert(k == 0 || k == -1) by (nonlinear_arith)
            requires
                lo <= seed + k * 0x1_0000_0000_0000 <= hi,
                lo == v * 0x10000,
                hi == v * 0x10000 + 0xFFFF,
                -0x8000_0000 <= v < 0x8000_0000,
                0 <= seed < 0x1_0000_0000_0000,
        ;
        let x = seed + k * 0x1_0000_0000_0000;
        assert(x == 0x10000 * (h + k * 0x1_0000_0000) + seed % 0x10000);
        vstd::arithmetic::div_mod::lemma_fundamental_div_mod_converse(x, 0x10000, v as int, x - lo);
        vstd::arithmetic::div_mod::lemma_fundamental_div_mod_converse(x, 0x10000, h + k * 0x1_0000_0000, (seed % 0x10000) as int);
    }
}

/// A state `seed` below 2^48 makes `nextBoolean()` return `value` exactly when it lies, up
/// to 2^48, in the range that `add_next_boolean_call` adds for `value`: the upper half of the
/// states for `true`, the lower half for `false`.
pub proof fn lemma_next_boolean_range(seed: i64, value: bool)
    requires
        0 <= seed < 0x1_0000_0000_0000,
    ensures
        ((seed_bits(seed, 1) == 1) == value) <==> in_range_mod(
            seed as int,
            if value { 0x8000_0000_0000int } else { 0int },
            if value { 0xFFFF_FFFF_FFFFint } else { 0x7FFF_FFFF_FFFFint },
            0x1_0000_0000_0000,
        ),
{
    let u = (seed as u64) >> 47u64;
    assert(u == 1 <==> seed >= 0x8000_0000_0000) by (bit_vector)
        requires
            u == (seed as u64) >> 47u64,
            0 <= seed < 0x1_0000_0000_0000,
    ;
    assert(u <= 1) by (bit_vector)
        requires
            u == (seed as u64) >> 47u64,
            0 <= seed < 0x1_0000_0000_0000,
    ;
    assert(seed_bits(seed, 1) == (u as i32));
    let lo: int = if value { 0x8000_0000_0000int } else { 0int };
    let hi: int = if value { 0xFFFF_FFFF_FFFFint } else { 0x7FFF_FFFF_FFFFint };
    if (seed_bits(seed, 1) == 1) == value {
        assert(lo <= shifted(seed as int, 0, 0x1_0000_0000_0000) <= hi);
    }
    if in_range_mod(seed as int, lo, hi, 0x1_0000_0000_0000) {
        let k = choose|k: int| lo <= #[trigger] shifted(seed as int, k, 0x1_0000_0000_0000) <= hi;
        assert(k == 0) by (nonlinear_arith)
            requires
                lo <= seed + k * 0x1_0000_0000_0000 <= hi,
                0 <= lo,
                hi < 0x1_0000_0000_0000,
                0 <= seed < 0x1_0000_0000_0000,
        ;
    }
}

} // verus!
