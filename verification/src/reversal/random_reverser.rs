//! The lattice of seeds that a list of bounds on successive LCG states describes.
use crate::math::component::arith::{int_add, int_div, int_lt, int_pow, int_rem, int_rem_trunc, int_sub, rat_add, rat_div, rat_mul, rat_sub};
use crate::math::lattice::decomposition::{inverse, lemma_diagonal_nonsingular};
use crate::math::lattice::lll;
use crate::math::lattice::enumerate::SearchNode;
use crate::math::lattice::span::{combination, in_lattice, int_q_seq, lemma_rescaled_in_lattice, point_combines};
use crate::util::util::{divides, lemma_div_exact, lemma_divides_trans, times, LCM};
use crate::math::component::big_matrix::{lemma_mat_index, BigMatrix};
use crate::math::component::rational::{
    lemma_q_eq_trans, lemma_q_mul_cong, lemma_q_ops_wf, lemma_q_sub_cong, nat_gcd, pow_u64, q_add, q_div, q_dot, q_eq, q_int, q_mul, q_sub, wf_rat, BigInteger,
    BigRational, Q,
};
use crate::util::lcg::{aff_iter, combined, iterate_seed, java, java_lcg, period, Random, LCG};
use vstd::arithmetic::div_mod::{lemma_add_mod_noop, lemma_mod_multiples_vanish, lemma_mul_mod_noop_right, lemma_sub_mod_noop};
use vstd::arithmetic::mul::lemma_mul_is_commutative;
use crate::math::component::big_vector::{OwnedBigVector, Vector};
use crate::util::util::ToU64;
use vstd::prelude::*;

verus! {

/// A test that a seed must pass, made on a generator set to it. Its answer depends on the
/// generator's state alone (`verdict`); what it leaves the generator at is open.
pub trait SeedFilter {
    /// The answer of the test on a generator with the given LCG and state.
    spec fn verdict(&self, lcg: LCG, seed: i64) -> bool;

    fn accepts(&self, rand: &mut Random) -> (b: bool)
        ensures
            b == self.verdict(old(rand).lcg, old(rand).seed),
    ;
}

/// Skips [LCG] calls and applies a filter function on the resulting seeds instead.<br>
/// Is usually not interacted with directly, use [DynamicProgram] instead.
pub struct FilteredSkip {
    pub skip_lcg: LCG,
    pub filter: Box<dyn SeedFilter>,
}

impl FilteredSkip {
    /// Creates a new FilteredSkip: the filter sees the state `current_index` steps of Java's
    /// generator after the seed.
    pub fn new(current_index: i64, filter: Box<dyn SeedFilter>) -> (r: FilteredSkip)
        ensures
            r.skip_lcg.wf(),
            r.skip_lcg == crate::util::lcg::combined(java_lcg(), current_index),
    {
        let j = java();
        let skip_lcg = j.combine(current_index);
        proof {
            crate::util::lcg::lemma_combined(j, current_index, skip_lcg);
        }
        FilteredSkip { skip_lcg, filter }
    }

    /// Checks whether this filter matches the `rand`: advances it by the skip, then asks the
    /// filter.
    pub fn check_state(&self, rand: &mut Random) -> (r: bool)
        requires
            self.skip_lcg.wf(),
        ensures
            r == self.filter.verdict(old(rand).lcg, self.skip_lcg.next_seed_spec(old(rand).seed)),
    {
        rand.advance(&self.skip_lcg);
        self.filter.accepts(rand)
    }
}

/// The integer values of a sequence of big integers.
pub open spec fn ints(v: Seq<BigInteger>) -> Seq<int> {
    v.map_values(|x: BigInteger| x@)
}

/// One lattice region: the range `mins[i] ..= maxes[i]` for the `i`-th measured seed.
pub struct Bounds {
    pub mins: Vec<BigInteger>,
    pub maxes: Vec<BigInteger>,
}

impl View for Bounds {
    type V = (Seq<int>, Seq<int>);

    open spec fn view(&self) -> (Seq<int>, Seq<int>) {
        (ints(self.mins@), ints(self.maxes@))
    }
}

/// A copy of a vector of big integers.
fn copy_ints(v: &Vec<BigInteger>) -> (r: Vec<BigInteger>)
    ensures
        ints(r@) == ints(v@),
{
    let mut r: Vec<BigInteger> = Vec::with_capacity(v.len());
    let mut i: usize = 0;
    while i < v.len()
        invariant
            i <= v.len(),
            r.len() == i,
            ints(r@) == ints(v@).take(i as int),
        decreases v.len() - i,
    {
        let ghost old_r = r@;
        r.push(v[i].clone());
        proof {
            assert forall|k: int| 0 <= k < i + 1 implies ints(r@)[k] == ints(v@)[k] by {
                if k < i {
                    assert(r@[k] == old_r[k]);
                    assert(ints(old_r)[k] == ints(v@).take(i as int)[k]);
                }
            }
        }
        i = i + 1;
        assert(ints(r@) =~= ints(v@).take(i as int));
    }
    assert(ints(v@).take(v.len() as int) =~= ints(v@));
    r
}

impl Bounds {
    fn copy(&self) -> (r: Bounds)
        ensures
            r@ == self@,
    {
        Bounds { mins: copy_ints(&self.mins), maxes: copy_ints(&self.maxes) }
    }
}

/// The views of a sequence of regions.
pub open spec fn bounds_view(v: Seq<Bounds>) -> Seq<(Seq<int>, Seq<int>)> {
    v.map_values(|b: Bounds| b@)
}

/// Every region of `old` combined with every new range `mins[j] ..= maxes[j]`: region
/// `j * old.len() + i` is region `i` of `old` extended by range `j`.
pub open spec fn bounds_product(old: Seq<(Seq<int>, Seq<int>)>, mins: Seq<int>, maxes: Seq<int>) -> Seq<(Seq<int>, Seq<int>)> {
    Seq::new(
        old.len() * mins.len(),
        |x: int|
            (old[x % (old.len() as int)].0.push(mins[x / (old.len() as int)]), old[x % (old.len() as int)].1.push(maxes[x / (old.len() as int)])),
    )
}

/// The modulus of an LCG as a positive integer: a modulus not above zero stands for itself
/// plus 2^64.
pub open spec fn modulus_of(modulus: i64) -> int {
    if modulus <= 0 {
        modulus + 0x1_0000_0000_0000_0000
    } else {
        modulus as int
    }
}

/// An upper end below the lower one wraps around the modulus.
pub open spec fn adjusted_max(max: int, min: int, modulus: int) -> int {
    if max < min {
        max + modulus
    } else {
        max
    }
}

/// The lower ends of the ranges, reduced by `modulus`.
pub open spec fn reduced_mins(mins: Seq<i64>, modulus: int) -> Seq<int> {
    Seq::new(mins.len(), |j: int| int_rem_trunc(mins[j] as int, modulus))
}

/// The upper ends of the ranges, reduced by `modulus` and moved above the lower ends.
pub open spec fn reduced_maxes(mins: Seq<i64>, maxes: Seq<i64>, modulus: int) -> Seq<int> {
    Seq::new(
        maxes.len(),
        |j: int| adjusted_max(int_rem_trunc(maxes[j] as int, modulus), int_rem_trunc(mins[j] as int, modulus), modulus),
    )
}

/// `mult` to the power `e`, reduced by `modulus` (with the sign of the power).
pub open spec fn lattice_mult(mult: int, e: int, modulus: int) -> int {
    int_rem_trunc(vstd::arithmetic::power::pow(mult, e as nat), modulus)
}

/// Reduces every range by `modulus`: the lower ends are reduced, and each upper end is reduced
/// and moved above its lower end.
fn reduce_ranges(mins: &Vec<i64>, maxes: &Vec<i64>, modulus: &BigInteger) -> (r: (Vec<BigInteger>, Vec<BigInteger>))
    requires
        modulus@ != 0,
        mins.len() == maxes.len(),
    ensures
        ints(r.0@) == reduced_mins(mins@, modulus@),
        ints(r.1@) == reduced_maxes(mins@, maxes@, modulus@),
        r.0.len() == mins.len(),
        r.1.len() == mins.len(),
{
    let mut lo: Vec<BigInteger> = Vec::with_capacity(mins.len());
    let mut hi: Vec<BigInteger> = Vec::with_capacity(mins.len());
    let mut i: usize = 0;
    while i < mins.len()
        invariant
            modulus@ != 0,
            mins.len() == maxes.len(),
            i <= mins.len(),
            lo.len() == i,
            hi.len() == i,
            forall|j: int| 0 <= j < i ==> (#[trigger] lo@[j])@ == reduced_mins(mins@, modulus@)[j],
            forall|j: int| 0 <= j < i ==> (#[trigger] hi@[j])@ == reduced_maxes(mins@, maxes@, modulus@)[j],
        decreases mins.len() - i,
    {
        let min = int_rem(&BigInteger::from_i64(mins[i]), modulus);
        let max = int_rem(&BigInteger::from_i64(maxes[i]), modulus);
        let max = if int_lt(&max, &min) {
            int_add(&max, modulus)
        } else {
            max
        };
        lo.push(min);
        hi.push(max);
        i = i + 1;
    }
    proof {
        assert(ints(lo@) =~= reduced_mins(mins@, modulus@));
        assert(ints(hi@) =~= reduced_maxes(mins@, maxes@, modulus@));
    }
    (lo, hi)
}

/// The entry at `r`, `c` of the lattice after a measured seed is added to one of `dims`
/// dimensions: the old entries stay, the new column holds `mult` in the first row and the
/// modulus in the last one, and zeros elsewhere.
pub open spec fn measured_entry(old: BigMatrix, dims: int, r: int, c: int, mult: int, modulus: int) -> Q {
    if c < dims {
        if r <= dims {
            old.entry(r, c)
        } else {
            q_int(0)
        }
    } else if r == 0 {
        q_int(mult)
    } else if r == dims + 1 {
        q_int(modulus)
    } else {
        q_int(0)
    }
}

/// The entry at `r`, `c` of the lattice after a seed measured modulo `measured` (that does
/// not divide the modulus) is added to one of `dims` dimensions: two new columns, both with
/// `mult` in the first row and the modulus in the row after the old ones, and `measured`
/// at the bottom of the second.
pub open spec fn modulo_entry(old: BigMatrix, dims: int, r: int, c: int, mult: int, modulus: int, measured: int) -> Q {
    if c < dims {
        if r <= dims {
            old.entry(r, c)
        } else {
            q_int(0)
        }
    } else if r == 0 {
        q_int(mult)
    } else if r == dims + 1 {
        q_int(modulus)
    } else if r == dims + 2 && c == dims + 1 {
        q_int(measured)
    } else {
        q_int(0)
    }
}

/// The seed that `offset_seeds` starts from at measured call `i`: zero for the first, then
/// each next one `call_indices[i + 1] - call_indices[i]` steps further.
pub open spec fn offset_seed(lcg: LCG, calls: Seq<i64>, i: nat) -> i64
    decreases i,
{
    if i == 0 {
        0
    } else {
        combined(lcg, (calls[i as int] - calls[i - 1]) as i64).next_seed_spec(offset_seed(lcg, calls, (i - 1) as nat))
    }
}

/// `after` keeps all of `before` but its filtered skips.
pub open spec fn same_but_filters(before: RandomReverser, after: RandomReverser) -> bool {
    &&& after.lattice == before.lattice
    &&& bounds_view(after.bounds@) == bounds_view(before.bounds@)
    &&& after.call_indices@ == before.call_indices@
    &&& after.current_call_index == before.current_call_index
    &&& after.dimensions == before.dimensions
    &&& after.success_chance@ == before.success_chance@
    &&& after.lcg == before.lcg
}

/// `after` is the well-formed reverser `before` with `n` more generator calls skipped: the
/// call index moves on by `n`, and all else is kept.
pub open spec fn skipped_by(before: RandomReverser, n: int, after: RandomReverser) -> bool {
    &&& after.wf()
    &&& after.current_call_index == before.current_call_index + n
    &&& after.lattice == before.lattice
    &&& bounds_view(after.bounds@) == bounds_view(before.bounds@)
    &&& after.call_indices@ == before.call_indices@
    &&& after.filtered_skips@ == before.filtered_skips@
    &&& after.dimensions == before.dimensions
    &&& after.success_chance@ == before.success_chance@
    &&& after.lcg == before.lcg
}

/// Generates the lattice used and applies bounds / filters.<br>
/// Is usually not interacted with directly, use [DynamicProgram] instead.
pub struct RandomReverser {
    pub modulus: BigInteger,
    pub multiplier: BigInteger,
    pub lcg: LCG,
    pub bounds: Vec<Bounds>,
    pub call_indices: Vec<i64>,
    pub filtered_skips: Vec<FilteredSkip>,
    pub lattice: BigMatrix,
    pub current_call_index: i64,
    pub dimensions: usize,
    pub success_chance: BigRational,
}

impl RandomReverser {
    /// Well-formed: the modulus and multiplier are those of the generator, every region has
    /// one range per dimension, the lattice has one column per dimension and one row more
    /// (none at all before the first dimension), its first row holds the multipliers of the
    /// measured calls, and its entries are integers.
    pub open spec fn wf(&self) -> bool {
        &&& self.lcg.wf()
        &&& self.modulus@ == modulus_of(self.lcg.modulus)
        &&& self.multiplier@ == int_rem_trunc(self.lcg.multiplier as int, self.modulus@)
        &&& self.bounds.len() >= 1
        &&& forall|i: int|
            0 <= i < self.bounds.len() ==> (#[trigger] self.bounds@[i]).mins.len() == self.dimensions
                && self.bounds@[i].maxes.len() == self.dimensions
        &&& self.call_indices.len() == self.dimensions
        &&& self.lattice.wf()
        &&& self.dimensions == 0 ==> self.lattice.row_count == 0 && self.lattice.column_count == 0
        &&& self.dimensions > 0 ==> self.lattice.row_count == self.dimensions + 1
            && self.lattice.column_count == self.dimensions
        &&& wf_rat(self.success_chance)
        &&& forall|i: int| 0 <= i < self.filtered_skips.len() ==> (#[trigger] self.filtered_skips@[i]).skip_lcg.wf()
        &&& forall|i: int|
            0 <= i < self.dimensions ==> #[trigger] self.lattice.entry(0, i) == q_int(
                lattice_mult(self.multiplier@, self.call_indices@[i] - self.call_indices@[0], self.modulus@),
            )
        &&& forall|r: int, c: int|
            0 <= r < self.lattice.row_count && 0 <= c < self.lattice.column_count ==> (#[trigger] self.lattice.entry(r, c)).d == 1
    }

    /// The call counter and the lattice stay within machine integers when a seed measured by
    /// `ranges` ranges and adding `added_dimensions` dimensions is added.
    pub open spec fn room_for(&self, ranges: nat, added_dimensions: nat) -> bool {
        &&& self.current_call_index < i64::MAX
        &&& self.call_indices.len() > 0 ==> 0 <= self.current_call_index + 1 - self.call_indices@[0] <= i64::MAX
        &&& self.bounds.len() * ranges <= usize::MAX
        &&& (self.dimensions + added_dimensions + 1) * (self.dimensions + added_dimensions) <= usize::MAX
    }

    /// `new` is `self` with the next seed measured by the ranges `mins[j] ..= maxes[j]` taken
    /// modulo `measured`: the regions are combined with the reduced ranges, the call is counted
    /// and recorded, and the lattice gains a column for it.
    pub open spec fn measured_by(&self, new: &RandomReverser, mins: Seq<i64>, maxes: Seq<i64>, measured: int) -> bool {
        &&& bounds_view(new.bounds@) == bounds_product(
            bounds_view(self.bounds@),
            reduced_mins(mins, measured),
            reduced_maxes(mins, maxes, measured),
        )
        &&& new.current_call_index == self.current_call_index + 1
        &&& new.call_indices@ == self.call_indices@.push((self.current_call_index + 1) as i64)
        &&& new.dimensions == self.dimensions + 1
        &&& forall|r: int, c: int|
            0 <= r <= new.dimensions && 0 <= c < new.dimensions ==> #[trigger] new.lattice.entry(r, c) == measured_entry(
                self.lattice,
                self.dimensions as int,
                r,
                c,
                lattice_mult(self.multiplier@, new.call_indices@[self.dimensions as int] - new.call_indices@[0], self.modulus@),
                measured,
            )
        &&& new.modulus == self.modulus
        &&& new.multiplier == self.multiplier
        &&& new.lcg == self.lcg
        &&& new.filtered_skips == self.filtered_skips
        &&& new.success_chance == self.success_chance
    }

    /// `new` is `self` with the next seed measured modulo `measured`, which does not divide the
    /// modulus: the seed is first bounded below the largest multiple of `measured` under the
    /// modulus, then by the reduced ranges; both count as one call; the lattice gains two
    /// columns, and the success chance drops by the share of seeds left out.
    pub open spec fn split_measured_by(&self, new: &RandomReverser, mins: Seq<i64>, maxes: Seq<i64>, measured: int) -> bool {
        let residue = int_rem_trunc(self.modulus@, measured);
        &&& bounds_view(new.bounds@) == bounds_product(
            bounds_product(bounds_view(self.bounds@), seq![0int], seq![self.modulus@ - residue]),
            reduced_mins(mins, measured),
            reduced_maxes(mins, maxes, measured),
        )
        &&& new.current_call_index == self.current_call_index + 1
        &&& new.call_indices@ == self.call_indices@.push((self.current_call_index + 1) as i64).push(
            (self.current_call_index + 1) as i64,
        )
        &&& new.dimensions == self.dimensions + 2
        &&& forall|r: int, c: int|
            0 <= r <= new.dimensions && 0 <= c < new.dimensions ==> #[trigger] new.lattice.entry(r, c) == modulo_entry(
                self.lattice,
                self.dimensions as int,
                r,
                c,
                lattice_mult(self.multiplier@, new.call_indices@[self.dimensions + 1] - new.call_indices@[0], self.modulus@),
                self.modulus@,
                measured,
            )
        &&& new.modulus == self.modulus
        &&& new.multiplier == self.multiplier
        &&& new.lcg == self.lcg
        &&& new.filtered_skips == self.filtered_skips
        &&& q_eq(new.success_chance@, q_mul(self.success_chance@, q_sub(q_int(1), q_div(q_int(residue), q_int(self.modulus@)))))
    }

    /// Creates a new RandomReverser with the given LCG.
    pub fn new(lcg: LCG) -> (r: RandomReverser)
        requires
            lcg.wf(),
        ensures
            r.wf(),
            r.lcg == lcg,
            bounds_view(r.bounds@) == seq![(Seq::<int>::empty(), Seq::<int>::empty())],
            r.call_indices@ == Seq::<i64>::empty(),
            r.filtered_skips@.len() == 0,
            r.current_call_index == 0,
            r.dimensions == 0,
            r.success_chance@ == q_int(1),
    {
        let mut modulus = BigInteger::from_i64(lcg.modulus);
        if lcg.modulus <= 0 {
            let two = BigInteger::from_i64(2);
            let p = int_pow(&two, 64);
            proof {
                vstd::arithmetic::power2::lemma_pow2(64);
                vstd::arithmetic::power2::lemma2_to64_rest();
                assert(pow_u64(2, 64) == 0x1_0000_0000_0000_0000);
            }
            modulus = int_add(&modulus, &p);
        }
        let multiplier = int_rem(&BigInteger::from_i64(lcg.multiplier), &modulus);
        let mut bounds: Vec<Bounds> = Vec::new();
        bounds.push(Bounds { mins: Vec::new(), maxes: Vec::new() });
        let r = RandomReverser {
            multiplier,
            modulus,
            lcg,
            bounds,
            call_indices: Vec::new(),
            filtered_skips: Vec::new(),
            lattice: BigMatrix::new(0, 0),
            current_call_index: 0,
            dimensions: 0,
            success_chance: BigRational::one(),
        };
        proof {
            assert(ints(r.bounds@[0].mins@) =~= Seq::<int>::empty());
            assert(ints(r.bounds@[0].maxes@) =~= Seq::<int>::empty());
            assert(bounds_view(r.bounds@) =~= seq![(Seq::<int>::empty(), Seq::<int>::empty())]);
        }
        r
    }

    /// Adds a [FilteredSkip].
    pub fn add_filtered_skip(&mut self, filtered_skip: FilteredSkip)
        requires
            old(self).wf(),
            filtered_skip.skip_lcg.wf(),
        ensures
            final(self).wf(),
            final(self).filtered_skips@ == old(self).filtered_skips@.push(filtered_skip),
            same_but_filters(*old(self), *final(self)),
    {
        self.filtered_skips.push(filtered_skip);
    }

    /// Skips the given amount of [LCG] calls.
    pub fn add_unmeasured_seeds(&mut self, num_seeds: i64)
        requires
            old(self).wf(),
            i64::MIN <= old(self).current_call_index + num_seeds <= i64::MAX,
        ensures
            skipped_by(*old(self), num_seeds as int, *final(self)),
    {
        self.current_call_index = self.current_call_index + num_seeds;
    }

    /// Combines every region with every range `min[j] ..= max[j]`: region `j * L + i` of the
    /// result is region `i` of the `L` old ones extended by range `j`.
    fn add_bounds(&mut self, min: Vec<BigInteger>, max: Vec<BigInteger>)
        requires
            old(self).bounds.len() >= 1,
            forall|i: int|
                0 <= i < old(self).bounds.len() ==> (#[trigger] old(self).bounds@[i]).mins.len() == old(self).bounds@[0].mins.len()
                    && old(self).bounds@[i].maxes.len() == old(self).bounds@[0].mins.len(),
            min.len() >= 1,
            min.len() == max.len(),
            old(self).bounds.len() * min.len() <= usize::MAX,
        ensures
            bounds_view(final(self).bounds@) == bounds_product(bounds_view(old(self).bounds@), ints(min@), ints(max@)),
            forall|i: int|
                0 <= i < final(self).bounds.len() ==> (#[trigger] final(self).bounds@[i]).mins.len() == old(self).bounds@[0].mins.len() + 1
                    && final(self).bounds@[i].maxes.len() == old(self).bounds@[0].mins.len() + 1,
            final(self).bounds.len() >= 1,
            final(self).modulus == old(self).modulus,
            final(self).multiplier == old(self).multiplier,
            final(self).lcg == old(self).lcg,
            final(self).call_indices == old(self).call_indices,
            final(self).filtered_skips == old(self).filtered_skips,
            final(self).lattice == old(self).lattice,
            final(self).current_call_index == old(self).current_call_index,
            final(self).dimensions == old(self).dimensions,
            final(self).success_chance == old(self).success_chance,
    {
        let old_len = self.bounds.len();
        let k = min.len();
        let ghost old_view = bounds_view(self.bounds@);
        let ghost target = bounds_product(old_view, ints(min@), ints(max@));
        let ghost dims = self.bounds@[0].mins.len();
        let mut new_bounds: Vec<Bounds> = Vec::with_capacity(old_len * k);
        let mut j: usize = 0;
        while j < k
            invariant
                old_len == self.bounds.len(),
                old_len >= 1,
                k == min.len(),
                k == max.len(),
                old_len * k <= usize::MAX,
                j <= k,
                old_view == bounds_view(self.bounds@),
                target == bounds_product(old_view, ints(min@), ints(max@)),
                forall|x: int| 0 <= x < old_len ==> (#[trigger] self.bounds@[x]).mins.len() == dims && self.bounds@[x].maxes.len() == dims,
                new_bounds.len() == j * old_len,
                forall|x: int| 0 <= x < new_bounds.len() ==> (#[trigger] new_bounds@[x])@ == target[x],
                forall|x: int|
                    0 <= x < new_bounds.len() ==> (#[trigger] new_bounds@[x]).mins.len() == dims + 1 && new_bounds@[x].maxes.len() == dims + 1,
            decreases k - j,
        {
            let mut i: usize = 0;
            proof {
                assert((j + 1) * old_len <= old_len * k) by (nonlinear_arith)
                    requires
                        j < k,
                ;
            }
            while i < old_len
                invariant
                    old_len == self.bounds.len(),
                    old_len >= 1,
                    k == min.len(),
                    k == max.len(),
                    j < k,
                    (j + 1) * old_len <= old_len * k,
                    old_len * k <= usize::MAX,
                    i <= old_len,
                    old_view == bounds_view(self.bounds@),
                    target == bounds_product(old_view, ints(min@), ints(max@)),
                    forall|x: int| 0 <= x < old_len ==> (#[trigger] self.bounds@[x]).mins.len() == dims && self.bounds@[x].maxes.len() == dims,
                    new_bounds.len() == j * old_len + i,
                    forall|x: int| 0 <= x < new_bounds.len() ==> (#[trigger] new_bounds@[x])@ == target[x],
                    forall|x: int|
                        0 <= x < new_bounds.len() ==> (#[trigger] new_bounds@[x]).mins.len() == dims + 1 && new_bounds@[x].maxes.len() == dims + 1,
                decreases old_len - i,
            {
                let mut b = self.bounds[i].copy();
                let ghost bm = b.mins@;
                let ghost bx = b.maxes@;
                b.mins.push(min[j].clone());
                b.maxes.push(max[j].clone());
                let ghost x = j * old_len + i;
                proof {
                    assert(x < old_len * k) by (nonlinear_arith)
                        requires
                            x == j * old_len + i,
                            i < old_len,
                            (j + 1) * old_len <= old_len * k,
                    ;
                    vstd::arithmetic::div_mod::lemma_fundamental_div_mod_converse(x as int, old_len as int, j as int, i as int);
                    assert(ints(b.mins@) =~= ints(bm).push(min@[j as int]@));
                    assert(ints(b.maxes@) =~= ints(bx).push(max@[j as int]@));
                    assert(self.bounds@[i as int]@ == old_view[i as int]);
                    assert(b@ == target[x]);
                }
                new_bounds.push(b);
                i = i + 1;
            }
            j = j + 1;
            proof {
                assert(j * old_len == (j - 1) * old_len + old_len) by (nonlinear_arith);
            }
        }
        self.bounds = new_bounds;
        proof {
            assert(bounds_view(self.bounds@) =~= target);
            assert(self.bounds.len() >= 1) by (nonlinear_arith)
                requires
                    self.bounds.len() == k * old_len,
                    k >= 1,
                    old_len >= 1,
            ;
        }
    }

    /// Adds `added_dimensions` columns (and as many rows) to the lattice, keeping its entries.
    fn add_dimensions(&mut self, added_dimensions: usize)
        requires
            old(self).lattice.wf(),
            old(self).dimensions == 0 ==> old(self).lattice.row_count == 0 && old(self).lattice.column_count == 0,
            old(self).dimensions > 0 ==> old(self).lattice.row_count == old(self).dimensions + 1
                && old(self).lattice.column_count == old(self).dimensions,
            added_dimensions >= 1,
            (old(self).dimensions + added_dimensions + 1) * (old(self).dimensions + added_dimensions) <= usize::MAX,
        ensures
            final(self).dimensions == old(self).dimensions + added_dimensions,
            final(self).lattice.wf(),
            final(self).lattice.row_count == final(self).dimensions + 1,
            final(self).lattice.column_count == final(self).dimensions,
            forall|r: int, c: int|
                0 <= r <= final(self).dimensions && 0 <= c < final(self).dimensions ==> #[trigger] final(self).lattice.entry(r, c)
                    == if r <= old(self).dimensions && c < old(self).dimensions {
                    old(self).lattice.entry(r, c)
                } else {
                    q_int(0)
                },
            final(self).modulus == old(self).modulus,
            final(self).multiplier == old(self).multiplier,
            final(self).lcg == old(self).lcg,
            final(self).bounds == old(self).bounds,
            final(self).call_indices == old(self).call_indices,
            final(self).filtered_skips == old(self).filtered_skips,
            final(self).current_call_index == old(self).current_call_index,
            final(self).success_chance == old(self).success_chance,
    {
        let old_dims = self.dimensions;
        proof {
            let d = old_dims + added_dimensions;
            assert(d + 1 <= (d + 1) * d) by (nonlinear_arith)
                requires
                    d >= 1,
            ;
        }
        self.dimensions = self.dimensions + added_dimensions;
        let dims = self.dimensions;
        let mut new_lattice = BigMatrix::new(dims + 1, dims);
        let ghost old_lattice = self.lattice;
        proof {
            assert forall|r: int, c: int| 0 <= r <= dims && 0 <= c < dims implies #[trigger] new_lattice.entry(r, c) == q_int(0) by {
                lemma_mat_index((dims + 1) as int, dims as int, r, c);
            }
        }
        if self.lattice.column_count != 0 {
            let mut row: usize = 0;
            while row < old_dims + 1
                invariant
                    old_lattice == self.lattice,
                    old_lattice.wf(),
                    old_lattice.row_count == old_dims + 1,
                    old_lattice.column_count == old_dims,
                    old_dims < dims,
                    (dims + 1) * dims <= usize::MAX,
                    new_lattice.wf(),
                    new_lattice.row_count == dims + 1,
                    new_lattice.column_count == dims,
                    row <= old_dims + 1,
                    forall|r: int, c: int|
                        0 <= r <= dims && 0 <= c < dims ==> #[trigger] new_lattice.entry(r, c) == if r < row && c < old_dims {
                            old_lattice.entry(r, c)
                        } else {
                            q_int(0)
                        },
                decreases old_dims + 1 - row,
            {
                let mut col: usize = 0;
                while col < old_dims
                    invariant
                        old_lattice == self.lattice,
                        old_lattice.wf(),
                        old_lattice.row_count == old_dims + 1,
                        old_lattice.column_count == old_dims,
                        old_dims < dims,
                        (dims + 1) * dims <= usize::MAX,
                        new_lattice.wf(),
                        new_lattice.row_count == dims + 1,
                        new_lattice.column_count == dims,
                        row < old_dims + 1,
                        col <= old_dims,
                        forall|r: int, c: int|
                            0 <= r <= dims && 0 <= c < dims ==> #[trigger] new_lattice.entry(r, c) == if r < row && c < old_dims {
                                old_lattice.entry(r, c)
                            } else if r == row && c < col {
                                old_lattice.entry(r, c)
                            } else {
                                q_int(0)
                            },
                    decreases old_dims - col,
                {
                    proof {
                        lemma_mat_index((old_dims + 1) as int, old_dims as int, row as int, col as int);
                        lemma_mat_index((dims + 1) as int, dims as int, row as int, col as int);
                    }
                    let x = self.lattice.get(row, col).clone();
                    let ghost before = new_lattice;
                    new_lattice.set(row, col, x);
                    proof {
                        assert forall|r: int, c: int| 0 <= r <= dims && 0 <= c < dims implies #[trigger] new_lattice.entry(r, c)
                            == if r < row && c < old_dims {
                                old_lattice.entry(r, c)
                            } else if r == row && c < col + 1 {
                                old_lattice.entry(r, c)
                            } else {
                                q_int(0)
                            } by {
                            lemma_mat_index((dims + 1) as int, dims as int, r, c);
                            if c + dims * r == col + dims * row {
                                crate::math::component::big_matrix::lemma_index_injective(dims as int, r, c, row as int, col as int);
                            }
                            assert(new_lattice.entry(r, c) == new_lattice.values()[c + dims * r]);
                            assert(before.entry(r, c) == before.values()[c + dims * r]);
                        }
                    }
                    col = col + 1;
                }
                row = row + 1;
            }
        }
        self.lattice = new_lattice;
    }

    /// `multiplier` to the power of the distance between the first and the last measured
    /// call, reduced by the modulus.
    fn last_multiplier(&self) -> (r: BigInteger)
        requires
            self.modulus@ != 0,
            self.call_indices.len() == self.dimensions,
            self.dimensions >= 1,
            0 <= self.call_indices@[self.dimensions - 1] - self.call_indices@[0] <= i64::MAX,
        ensures
            r@ == lattice_mult(
                self.multiplier@,
                self.call_indices@[self.dimensions - 1] - self.call_indices@[0],
                self.modulus@,
            ),
    {
        let dims = self.dimensions;
        let e = (self.call_indices[dims - 1] - self.call_indices[0]) as u64;
        let p = int_pow(&self.multiplier, e);
        int_rem(&p, &self.modulus)
    }

    /// Adds bounds to the next seed.<br>
    /// `mins` and `maxes` are the minimum and maximum bounds of the ranges.<br>
    /// The resulting seeds will be in at least one of the ranges.<br>
    /// Multiple ranges are not recommended unless absolutely necessary due to performance
    /// reasons, see [RandomReverser] for more information.
    pub fn add_measured_seed(&mut self, mins: Vec<i64>, maxes: Vec<i64>)
        requires
            old(self).wf(),
            mins.len() == maxes.len(),
            mins.len() >= 1,
            old(self).room_for(mins.len() as nat, 1),
        ensures
            final(self).wf(),
            old(self).measured_by(final(self), mins@, maxes@, old(self).modulus@),
    {
        let (min, max) = reduce_ranges(&mins, &maxes, &self.modulus);
        proof {
            assert(min.len() == mins.len());
        }
        self.add_bounds(min, max);
        self.current_call_index = self.current_call_index + 1;
        self.call_indices.push(self.current_call_index);
        let ghost before = *self;
        self.add_dimensions(1);
        let dims = self.dimensions;
        let mult = self.last_multiplier();
        proof {
            lemma_mat_index((dims + 1) as int, dims as int, 0, (dims - 1) as int);
            lemma_mat_index((dims + 1) as int, dims as int, dims as int, (dims - 1) as int);
        }
        let ghost before_set = self.lattice;
        self.lattice.set(0, dims - 1, BigRational::from_integer(mult));
        let ghost mid_set = self.lattice;
        self.lattice.set(dims, dims - 1, BigRational::from_integer(self.modulus.clone()));
        proof {
            assert forall|r: int, c: int| 0 <= r <= dims && 0 <= c < dims implies #[trigger] self.lattice.entry(r, c)
                == measured_entry(before.lattice, (dims - 1) as int, r, c, lattice_mult(
                    self.multiplier@,
                    self.call_indices@[dims - 1] - self.call_indices@[0],
                    self.modulus@,
                ), self.modulus@) by {
                assert(before_set.entry(r, c) == (if r <= dims - 1 && c < dims - 1 {
                    before.lattice.entry(r, c)
                } else {
                    q_int(0)
                }));
            }
        }
    }

    /// Adds bounds to the next seed.<br>
    /// `mins` and `maxes` are the minimum and maximum bounds of the seed ranges, modulo
    /// `measured_mod`. Where `measured_mod` does not divide the modulus, the seeds above the
    /// largest multiple of `measured_mod` below the modulus are left out, and the success
    /// chance drops by that share.<br>
    /// See [RandomReverser::add_measured_seed]
    pub fn add_modulo_measured_seeds(&mut self, min: Vec<i64>, max: Vec<i64>, measured_mod: i64)
        requires
            old(self).wf(),
            measured_mod != 0,
            min.len() == max.len(),
            min.len() >= 1,
            old(self).room_for(min.len() as nat, 2),
        ensures
            final(self).wf(),
            int_rem_trunc(old(self).modulus@, measured_mod as int) == 0 ==> old(self).measured_by(
                final(self),
                min@,
                max@,
                measured_mod as int,
            ),
            int_rem_trunc(old(self).modulus@, measured_mod as int) != 0 ==> old(self).split_measured_by(
                final(self),
                min@,
                max@,
                measured_mod as int,
            ),
    {
        let measured = BigInteger::from_i64(measured_mod);
        let (min, max) = reduce_ranges(&min, &max, &measured);
        let residue = int_rem(&self.modulus, &measured);
        if residue.is_zero() {
            proof {
                let d = self.dimensions as int;
                assert((d + 2) * (d + 1) <= (d + 3) * (d + 2)) by (nonlinear_arith)
                    requires
                        d >= 0,
                ;
            }
            self.add_bounds(min, max);
            self.current_call_index = self.current_call_index + 1;
            self.call_indices.push(self.current_call_index);
            let ghost before = *self;
            self.add_dimensions(1);
            let dims = self.dimensions;
            let mult = self.last_multiplier();
            proof {
                lemma_mat_index((dims + 1) as int, dims as int, 0, (dims - 1) as int);
                lemma_mat_index((dims + 1) as int, dims as int, dims as int, (dims - 1) as int);
            }
            let ghost before_set = self.lattice;
            self.lattice.set(0, dims - 1, BigRational::from_integer(mult));
            self.lattice.set(dims, dims - 1, BigRational::from_integer(measured));
            proof {
                assert forall|r: int, c: int| 0 <= r <= dims && 0 <= c < dims implies #[trigger] self.lattice.entry(r, c)
                    == measured_entry(before.lattice, (dims - 1) as int, r, c, lattice_mult(
                        self.multiplier@,
                        self.call_indices@[dims - 1] - self.call_indices@[0],
                        self.modulus@,
                    ), measured_mod as int) by {
                    assert(before_set.entry(r, c) == (if r <= dims - 1 && c < dims - 1 {
                        before.lattice.entry(r, c)
                    } else {
                        q_int(0)
                    }));
                }
            }
            return;
        }
        let ghost old_chance = self.success_chance@;
        let one = BigRational::one();
        let share = rat_div(&BigRational::from_integer(residue.clone()), &BigRational::from_integer(self.modulus.clone()));
        let keep = rat_sub(&one, &share);
        self.success_chance = rat_mul(&self.success_chance, &keep);
        proof {
            let d = q_div(q_int(residue@), q_int(self.modulus@));
            let k = q_sub(q_int(1), d);
            lemma_q_ops_wf(one@, share@);
            lemma_q_ops_wf(q_int(residue@), q_int(self.modulus@));
            lemma_q_ops_wf(q_int(1), d);
            lemma_q_sub_cong(one@, q_int(1), share@, d);
            lemma_q_eq_trans(keep@, q_sub(one@, share@), k);
            lemma_q_ops_wf(old_chance, keep@);
            lemma_q_mul_cong(old_chance, old_chance, keep@, k);
            lemma_q_eq_trans(self.success_chance@, q_mul(old_chance, keep@), q_mul(old_chance, k));
        }
        let mut zero_min: Vec<BigInteger> = Vec::new();
        zero_min.push(BigInteger::from_i64(0));
        let mut top_max: Vec<BigInteger> = Vec::new();
        top_max.push(int_sub(&self.modulus, &residue));
        proof {
            assert(ints(zero_min@) =~= seq![0int]);
            assert(ints(top_max@) =~= seq![self.modulus@ - residue@]);
        }
        let ghost len0 = self.bounds.len();
        self.add_bounds(zero_min, top_max);
        proof {
            assert(bounds_view(self.bounds@).len() == self.bounds.len());
            assert(self.bounds.len() == len0 * 1);
        }
        self.current_call_index = self.current_call_index + 1;
        self.call_indices.push(self.current_call_index);
        proof {
            assert(self.bounds.len() * min.len() <= usize::MAX);
        }
        self.add_bounds(min, max);
        self.call_indices.push(self.current_call_index);
        let ghost before = *self;
        self.add_dimensions(2);
        let dims = self.dimensions;
        let mult = self.last_multiplier();
        proof {
            lemma_mat_index((dims + 1) as int, dims as int, 0, (dims - 2) as int);
            lemma_mat_index((dims + 1) as int, dims as int, 0, (dims - 1) as int);
            lemma_mat_index((dims + 1) as int, dims as int, (dims - 1) as int, (dims - 1) as int);
            lemma_mat_index((dims + 1) as int, dims as int, (dims - 1) as int, (dims - 2) as int);
            lemma_mat_index((dims + 1) as int, dims as int, dims as int, (dims - 1) as int);
        }
        let ghost before_set = self.lattice;
        self.lattice.set(0, dims - 2, BigRational::from_integer(mult.clone()));
        self.lattice.set(0, dims - 1, BigRational::from_integer(mult));
        self.lattice.set(dims - 1, dims - 1, BigRational::from_integer(self.modulus.clone()));
        self.lattice.set(dims - 1, dims - 2, BigRational::from_integer(self.modulus.clone()));
        self.lattice.set(dims, dims - 1, BigRational::from_integer(measured));
        proof {
            assert forall|r: int, c: int| 0 <= r <= dims && 0 <= c < dims implies #[trigger] self.lattice.entry(r, c)
                == modulo_entry(before.lattice, (dims - 2) as int, r, c, lattice_mult(
                    self.multiplier@,
                    self.call_indices@[dims - 1] - self.call_indices@[0],
                    self.modulus@,
                ), self.modulus@, measured_mod as int) by {
                assert(before_set.entry(r, c) == (if r <= dims - 2 && c < dims - 2 {
                    before.lattice.entry(r, c)
                } else {
                    q_int(0)
                }));
            }
        }
    }

    /// The lattice of each region, reduced: with `L` the least common multiple of the
    /// region's side lengths `max - min + 1`, the lattice's columns are scaled by `L / side`
    /// (making the region a cube), the rows reduced by LLL, and the scaling undone. Every row
    /// of a reduced lattice is a point of the lattice: an integer combination of its rows.
    pub fn get_reduced_lattices(&self) -> (r: Vec<BigMatrix>)
        requires
            self.wf(),
            1 <= self.dimensions < i32::MAX,
            (self.dimensions + 2) * (self.dimensions + 1) <= usize::MAX,
            forall|b: int, i: int|
                0 <= b < self.bounds.len() && 0 <= i < self.dimensions ==> #[trigger] self.bounds@[b].maxes@[i]@
                    - self.bounds@[b].mins@[i]@ + 1 != 0,
        ensures
            r.len() == self.bounds.len(),
            forall|k: int|
                0 <= k < r.len() ==> (#[trigger] r@[k]).wf() && r@[k].column_count == self.dimensions && r@[k].row_count
                    <= self.dimensions + 1,
            forall|k: int, i: int|
                0 <= k < r.len() && 0 <= i < r@[k].row_count ==> #[trigger] in_lattice(r@[k], i, self.lattice),
    {
        let dim = self.dimensions;
        let one = BigInteger::from_i64(1);
        let mut lattices: Vec<BigMatrix> = Vec::with_capacity(self.bounds.len());
        proof {
            assert(dim * dim <= (dim + 2) * (dim + 1)) by (nonlinear_arith);
        }
        let mut b: usize = 0;
        while b < self.bounds.len()
            invariant
                self.wf(),
                dim == self.dimensions,
                1 <= dim < i32::MAX,
                (dim + 2) * (dim + 1) <= usize::MAX,
                dim * dim <= usize::MAX,
                one@ == 1,
                forall|bb: int, i: int|
                    0 <= bb < self.bounds.len() && 0 <= i < dim ==> #[trigger] self.bounds@[bb].maxes@[i]@ - self.bounds@[bb].mins@[i]@ + 1
                        != 0,
                b <= self.bounds.len(),
                lattices.len() == b,
                forall|k: int|
                    0 <= k < lattices.len() ==> (#[trigger] lattices@[k]).wf() && lattices@[k].column_count == dim
                        && lattices@[k].row_count <= dim + 1,
                forall|k: int, i: int|
                    0 <= k < lattices.len() && 0 <= i < lattices@[k].row_count ==> #[trigger] in_lattice(
                        lattices@[k],
                        i,
                        self.lattice,
                    ),
            decreases self.bounds.len() - b,
        {
            let bounds = &self.bounds[b];
            let mut side_length: Vec<BigInteger> = Vec::with_capacity(dim);
            let mut i: usize = 0;
            while i < dim
                invariant
                    bounds.mins.len() == dim,
                    bounds.maxes.len() == dim,
                    one@ == 1,
                    forall|j: int| 0 <= j < dim ==> #[trigger] bounds.maxes@[j]@ - bounds.mins@[j]@ + 1 != 0,
                    i <= dim,
                    side_length.len() == i,
                    forall|j: int| 0 <= j < i ==> (#[trigger] side_length@[j])@ == bounds.maxes@[j]@ - bounds.mins@[j]@ + 1,
                decreases dim - i,
            {
                let width = int_sub(&bounds.maxes[i], &bounds.mins[i]);
                side_length.push(int_add(&width, &one));
                i = i + 1;
            }
            let mut lcm_value = BigInteger::from_i64(1);
            let mut i: usize = 0;
            while i < dim
                invariant
                    side_length.len() == dim,
                    forall|j: int| 0 <= j < dim ==> (#[trigger] side_length@[j])@ != 0,
                    i <= dim,
                    lcm_value@ != 0,
                    forall|j: int| 0 <= j < i ==> divides((#[trigger] side_length@[j])@, lcm_value@),
                decreases dim - i,
            {
                let next = lcm_value.lcm(&side_length[i]);
                proof {
                    assert forall|j: int| 0 <= j < i + 1 implies divides((#[trigger] side_length@[j])@, next@) by {
                        if j < i {
                            lemma_divides_trans(side_length@[j]@, lcm_value@, next@);
                        }
                    }
                }
                lcm_value = next;
                i = i + 1;
            }
            let mut scales = BigMatrix::new(dim, dim);
            proof {
                assert forall|r: int, c: int| 0 <= r < dim && 0 <= c < dim implies #[trigger] scales.entry(r, c) == q_int(0) by {
                    lemma_mat_index(dim as int, dim as int, r, c);
                }
            }
            let mut i: usize = 0;
            while i < dim
                invariant
                    side_length.len() == dim,
                    forall|j: int| 0 <= j < dim ==> (#[trigger] side_length@[j])@ != 0,
                    forall|j: int| 0 <= j < dim ==> divides((#[trigger] side_length@[j])@, lcm_value@),
                    lcm_value@ != 0,
                    scales.wf(),
                    scales.row_count == dim,
                    scales.column_count == dim,
                    i <= dim,
                    forall|r: int, c: int| 0 <= r < dim && 0 <= c < dim && r != c ==> (#[trigger] scales.entry(r, c)).n == 0,
                    forall|r: int| 0 <= r < i ==> (#[trigger] scales.entry(r, r)).n != 0,
                    forall|r: int| i <= r < dim ==> (#[trigger] scales.entry(r, r)).n == 0,
                decreases dim - i,
            {
                let q = int_div(&lcm_value, &side_length[i]);
                proof {
                    assert(divides(side_length@[i as int]@, lcm_value@));
                    let k = choose|k: int| #[trigger] times(k, side_length@[i as int]@) == lcm_value@;
                    lemma_div_exact(k, side_length@[i as int]@);
                    assert(q@ == k);
                    assert(k != 0);
                    lemma_mat_index(dim as int, dim as int, i as int, i as int);
                }
                scales.set(i, i, BigRational::from_integer(q));
                i = i + 1;
            }
            proof {
                lemma_diagonal_nonsingular(&scales);
            }
            let scaled_lattice = self.lattice.mul_matrix(&scales);
            let ghost scaled_view = scaled_lattice;
            let reduced = lll::reduce(scaled_lattice);
            let inv = inverse(&scales);
            let result = reduced.mul_matrix(&inv);
            proof {
                lemma_rescaled_in_lattice(self.lattice, scales, scaled_view, inv, reduced, result);
            }
            lattices.push(result);
            b = b + 1;
        }
        lattices
    }

    /// The lower and upper corners of each region, as rational vectors.
    pub fn bound_vectors(&self) -> (r: (Vec<OwnedBigVector>, Vec<OwnedBigVector>))
        requires
            self.wf(),
        ensures
            r.0.len() == self.bounds.len(),
            r.1.len() == self.bounds.len(),
            forall|b: int|
                0 <= b < self.bounds.len() ==> (#[trigger] r.0@[b]).wf_vec() && r.0@[b].dimension == self.dimensions
                    && r.1@[b].wf_vec() && r.1@[b].dimension == self.dimensions
                    && forall|i: int| 0 <= i < self.dimensions ==> #[trigger] r.0@[b].values()[i] == q_int(self.bounds@[b].mins@[i]@)
                        && r.1@[b].values()[i] == q_int(self.bounds@[b].maxes@[i]@),
    {
        let dim = self.dimensions;
        let mut lower: Vec<OwnedBigVector> = Vec::with_capacity(self.bounds.len());
        let mut upper: Vec<OwnedBigVector> = Vec::with_capacity(self.bounds.len());
        let mut b: usize = 0;
        while b < self.bounds.len()
            invariant
                self.wf(),
                dim == self.dimensions,
                b <= self.bounds.len(),
                lower.len() == b,
                upper.len() == b,
                forall|bb: int| 0 <= bb < b ==> (#[trigger] lower@[bb]).wf_vec() && lower@[bb].dimension == dim,
                forall|bb: int| 0 <= bb < b ==> (#[trigger] upper@[bb]).wf_vec() && upper@[bb].dimension == dim,
                forall|bb: int, i: int|
                    0 <= bb < b && 0 <= i < dim ==> #[trigger] lower@[bb].values()[i] == q_int(self.bounds@[bb].mins@[i]@),
                forall|bb: int, i: int|
                    0 <= bb < b && 0 <= i < dim ==> #[trigger] upper@[bb].values()[i] == q_int(self.bounds@[bb].maxes@[i]@),
            decreases self.bounds.len() - b,
        {
            let bounds = &self.bounds[b];
            let mut lo: Vec<BigRational> = Vec::with_capacity(dim);
            let mut hi: Vec<BigRational> = Vec::with_capacity(dim);
            let mut i: usize = 0;
            while i < dim
                invariant
                    bounds.mins.len() == dim,
                    bounds.maxes.len() == dim,
                    i <= dim,
                    lo.len() == i,
                    hi.len() == i,
                    crate::math::component::big_vector::all_wf(lo@),
                    crate::math::component::big_vector::all_wf(hi@),
                    forall|j: int| 0 <= j < i ==> (#[trigger] lo@[j])@ == q_int(bounds.mins@[j]@),
                    forall|j: int| 0 <= j < i ==> (#[trigger] hi@[j])@ == q_int(bounds.maxes@[j]@),
                decreases dim - i,
            {
                lo.push(BigRational::from_integer(bounds.mins[i].clone()));
                hi.push(BigRational::from_integer(bounds.maxes[i].clone()));
                i = i + 1;
            }
            lower.push(OwnedBigVector::new_from_numbers(lo));
            upper.push(OwnedBigVector::new_from_numbers(hi));
            b = b + 1;
        }
        (lower, upper)
    }

    /// The seeds at the measured calls of the generator started from seed zero: entry `i`
    /// is the seed `call_indices[i] - call_indices[0]` steps after zero.
    pub fn seed_offset(&self) -> (r: OwnedBigVector)
        requires
            self.wf(),
            self.dimensions >= 2 ==> self.lcg.multiplier != i64::MAX,
            forall|i: int|
                0 <= i < self.dimensions - 1 ==> i64::MIN <= #[trigger] self.call_indices@[i + 1] - self.call_indices@[i] <= i64::MAX,
        ensures
            r.wf_vec(),
            r.dimension == self.dimensions,
            forall|i: int| 0 <= i < self.dimensions ==> #[trigger] r.values()[i] == q_int(offset_seed(self.lcg, self.call_indices@, i as nat) as int),
    {
        let dim = self.dimensions;
        let mut offset = OwnedBigVector::new(dim);
        let mut rand = Random::of_seed(self.lcg, 0);
        let mut i: usize = 0;
        while i < dim
            invariant
                self.wf(),
                dim == self.dimensions,
                dim >= 2 ==> self.lcg.multiplier != i64::MAX,
                forall|k: int| 0 <= k < dim - 1 ==> i64::MIN <= #[trigger] self.call_indices@[k + 1] - self.call_indices@[k] <= i64::MAX,
                offset.wf_vec(),
                offset.dimension == dim,
                i <= dim,
                rand.lcg == self.lcg,
                i < dim ==> rand.seed == offset_seed(self.lcg, self.call_indices@, i as nat),
                forall|k: int| 0 <= k < i ==> #[trigger] offset.values()[k] == q_int(offset_seed(self.lcg, self.call_indices@, k as nat) as int),
            decreases dim - i,
        {
            offset.set(i, BigRational::from_i64(rand.get_seed()));
            if i != dim - 1 {
                let steps = self.call_indices[i + 1] - self.call_indices[i];
                rand.advance_steps(steps);
            }
            i = i + 1;
        }
        offset
    }

    /// The generator that takes a seed at the first measured call back to the seed before
    /// the calls: `call_indices[0]` steps backwards.
    pub fn seed_reverser(&self) -> (r: LCG)
        requires
            self.wf(),
            self.dimensions >= 1,
            self.call_indices@[0] != i64::MIN,
            self.call_indices@[0] != 0 ==> self.lcg.multiplier != i64::MAX,
        ensures
            r == combined(self.lcg, (-self.call_indices@[0]) as i64),
    {
        let back = self.lcg.combine(-self.call_indices[0]);
        proof {
            crate::util::lcg::lemma_combined(self.lcg, (-self.call_indices@[0]) as i64, back);
        }
        back
    }

    /// Every filter accepts `seed`: each sees the state its skip reaches from `seed`.
    pub open spec fn filters_accept(&self, seed: i64) -> bool {
        forall|k: int|
            0 <= k < self.filtered_skips.len() ==> (#[trigger] self.filtered_skips@[k]).filter.verdict(
                self.lcg,
                self.filtered_skips@[k].skip_lcg.next_seed_spec(seed),
            )
    }

    /// Whether `seed` passes every filter: each starts from a generator set to `seed`.
    pub fn passes_filters(&self, seed: i64) -> (r: bool)
        requires
            self.wf(),
        ensures
            r == self.filters_accept(seed),
    {
        let mut k: usize = 0;
        while k < self.filtered_skips.len()
            invariant
                self.wf(),
                k <= self.filtered_skips.len(),
                forall|j: int|
                    0 <= j < k ==> (#[trigger] self.filtered_skips@[j]).filter.verdict(
                        self.lcg,
                        self.filtered_skips@[j].skip_lcg.next_seed_spec(seed),
                    ),
            decreases self.filtered_skips.len() - k,
        {
            let mut rr = Random::of_seed(self.lcg, seed);
            if !self.filtered_skips[k].check_state(&mut rr) {
                return false;
            }
            k = k + 1;
        }
        true
    }
}


/// A fraction in lowest terms equal to an integer has the denominator one.
proof fn lemma_lowest_terms_integer(x: BigRational, v: int)
    requires
        wf_rat(x),
        nat_gcd(x.numerator@, x.denominator@) == 1,
        q_eq(x@, q_int(v)),
        v >= 0,
    ensures
        x.denominator@ == 1,
        x.numerator@ == v,
{
    let d = x.denominator@ as int;
    let n = x.numerator@ as int;
    assert(x@.n == v * d);
    assert(n == v * d) by {
        if x.non_negative {
        } else {
            assert(-n == v * d);
            assert(v * d >= 0) by (nonlinear_arith)
                requires
                    v >= 0,
                    d > 0,
            ;
        }
    }
    vstd::arithmetic::div_mod::lemma_mod_multiples_basic(v, d);
    assert(v * d == d * v) by (nonlinear_arith);
    assert((n as nat) % (d as nat) == 0);
    reveal_with_fuel(nat_gcd, 3);
    assert(nat_gcd(n as nat, d as nat) == nat_gcd(d as nat, 0));
    assert(nat_gcd(d as nat, 0) == d);
    assert(n == v) by (nonlinear_arith)
        requires
            n == v * d,
            d == 1,
    ;
}

/// The seed of a lattice point: the first coordinate of `point + offset` (its numerator, cut
/// to 64 bits) taken back through `seed_reverser`. Where that sum is a non-negative integer,
/// the seed is that integer, cut to 64 bits, taken back.
pub fn seed_of_point(point: &OwnedBigVector, offset: &OwnedBigVector, seed_reverser: &LCG) -> (r: i64)
    requires
        point.wf_vec(),
        offset.wf_vec(),
        1 <= point.dimension <= offset.dimension,
        seed_reverser.wf(),
    ensures
        exists|sum: BigRational|
            #![trigger q_eq(sum@, q_add(point.values()[0], offset.values()[0]))]
            q_eq(sum@, q_add(point.values()[0], offset.values()[0]))
                && r == seed_reverser.next_seed_spec(((sum.numerator@ % 0x1_0000_0000_0000_0000) as u64) as i64),
        forall|v: int|
            v >= 0 && #[trigger] q_eq(q_add(point.values()[0], offset.values()[0]), q_int(v)) ==> r == seed_reverser.next_seed_spec(
                ((v % 0x1_0000_0000_0000_0000) as u64) as i64,
            ),
{
    let first = rat_add(point.get(0), offset.get(0));
    let low = first.numerator.to_u64();
    let r = seed_reverser.next_seed(low as i64);
    proof {
        let p0 = point.values()[0];
        let o0 = offset.values()[0];
        assert(q_eq(first@, q_add(p0, o0)));
        point.lemma_values_wf();
        offset.lemma_values_wf();
        lemma_q_ops_wf(p0, o0);
        assert forall|v: int| v >= 0 && #[trigger] q_eq(q_add(p0, o0), q_int(v)) implies r == seed_reverser.next_seed_spec(
            ((v % 0x1_0000_0000_0000_0000) as u64) as i64,
        ) by {
            lemma_q_eq_trans(first@, q_add(p0, o0), q_int(v));
            lemma_lowest_terms_integer(first, v);
        }
    }
    r
}


/// The measured calls up to `i` do not go back.
pub open spec fn calls_forward(calls: Seq<i64>, i: int) -> bool {
    forall|j: int| 0 < j <= i ==> #[trigger] calls[j] >= calls[j - 1]
}

/// Modulo the period, the seed at measured call `i` of the generator started from zero is
/// the addend of the affine map over the `calls[i] - calls[0]` steps from the first call.
proof fn lemma_offset_cong(lcg: LCG, calls: Seq<i64>, i: nat)
    requires
        lcg.wf(),
        lcg.masks(),
        i < calls.len(),
        calls_forward(calls, i as int),
        calls[i as int] - calls[0] <= i64::MAX,
    ensures
        offset_seed(lcg, calls, i) as int % period(lcg.modulus) == aff_iter(
            lcg.multiplier as int,
            lcg.addend as int,
            (calls[i as int] - calls[0]) as nat,
        ).1 % period(lcg.modulus),
    decreases i,
{
    let a = lcg.multiplier as int;
    let c = lcg.addend as int;
    let p = period(lcg.modulus);
    crate::util::lcg::lemma_period_positive(lcg.modulus);
    if i == 0 {
        assert(aff_iter(a, c, 0) == (1int, 0int));
    } else {
        let i1 = (i - 1) as nat;
        assert forall|j: int| 0 < j <= i1 implies #[trigger] calls[j] >= calls[j - 1] by {
            assert(calls[j] >= calls[j - 1]);
        }
        assert(calls[i as int] >= calls[i1 as int]);
        assert forall|j: int| 0 <= j <= i1 implies #[trigger] calls[j] >= calls[0] by {
            lemma_calls_forward_from_first(calls, i as int, j);
        }
        lemma_offset_cong(lcg, calls, i1);
        let d = calls[i as int] - calls[i1 as int];
        let e1 = (calls[i1 as int] - calls[0]) as nat;
        let prev = offset_seed(lcg, calls, i1);
        crate::util::lcg::lemma_combined_cong(lcg, d as i64, prev);
        let pd = aff_iter(a, c, d as nat);
        let pe = aff_iter(a, c, e1);
        crate::util::lcg::lemma_aff_add(a, c, d as nat, e1);
        assert(d as nat + e1 == (calls[i as int] - calls[0]) as nat);
        lemma_mul_mod_noop_right(pd.0, prev as int, p);
        lemma_mul_mod_noop_right(pd.0, pe.1, p);
        lemma_add_mod_noop(pd.0 * prev, pd.1, p);
        lemma_add_mod_noop(pd.0 * pe.1, pd.1, p);
    }
}

/// Calls that do not go back are all at or after the first one.
proof fn lemma_calls_forward_from_first(calls: Seq<i64>, i: int, j: int)
    requires
        calls_forward(calls, i),
        0 <= j <= i,
    ensures
        calls[j] >= calls[0],
    decreases j,
{
    if j > 0 {
        lemma_calls_forward_from_first(calls, i, j - 1);
        assert(calls[j] >= calls[j - 1]);
    }
}

/// The lattice holds the generator's seeds: for a generator that reduces by masking and
/// measured calls that do not go back, whatever the state `s` at the first measured call,
/// the state at measured call `i` less its offset is `s` times the lattice's first row, modulo
/// the modulus. So the vector of these differences is a point of the lattice, `s` times the
/// first row plus multiples of the modulus rows.
pub proof fn lemma_states_on_lattice(r: &RandomReverser, s: i64, i: int)
    requires
        r.wf(),
        r.lcg.masks(),
        0 <= i < r.dimensions,
        calls_forward(r.call_indices@, i),
        r.call_indices@[i] - r.call_indices@[0] <= i64::MAX,
    ensures
        (iterate_seed(r.lcg, (r.call_indices@[i] - r.call_indices@[0]) as nat, s) - offset_seed(r.lcg, r.call_indices@, i as nat)
            - s * r.lattice.entry(0, i).n) % r.modulus@ == 0,
{
    let lcg = r.lcg;
    let a = lcg.multiplier as int;
    let c = lcg.addend as int;
    let calls = r.call_indices@;
    let n = r.modulus@;
    let e = (calls[i] - calls[0]) as nat;
    let pe = aff_iter(a, c, e);
    let l = r.lattice.entry(0, i).n;
    assert(l == lattice_mult(r.multiplier@, e as int, n));
    assert(r.multiplier@ == int_rem_trunc(a, n));
    assert(period(lcg.modulus) == n) by {
        crate::util::lcg::lemma_period_positive(lcg.modulus);
    }
    assert(n > 0);
    assert(iterate_seed(lcg, e, s) as int % n == (pe.0 * s + pe.1) % n) by {
        crate::util::lcg::lemma_iterate_cong(lcg, e, s);
    }
    assert(offset_seed(lcg, calls, i as nat) as int % n == pe.1 % n) by {
        lemma_calls_forward_from_first(calls, i, i);
        lemma_offset_cong(lcg, calls, i as nat);
    }
    assert(l % n == pe.0 % n) by {
        lemma_lattice_mult_cong(a, c, e, n);
    }
    lemma_lattice_arith(iterate_seed(lcg, e, s) as int, offset_seed(lcg, calls, i as nat) as int, s as int, l, pe.0, pe.1, n);
}

/// The first lattice entry of a call `e` steps after the first is the `e`-step multiplier,
/// modulo `n`.
proof fn lemma_lattice_mult_cong(a: int, c: int, e: nat, n: int)
    requires
        n > 0,
    ensures
        lattice_mult(int_rem_trunc(a, n), e as int, n) % n == aff_iter(a, c, e).0 % n,
{
    let mult = int_rem_trunc(a, n);
    let pw = vstd::arithmetic::power::pow(mult, e);
    lemma_rem_trunc_cong(pw, n);
    lemma_rem_trunc_cong(a, n);
    vstd::arithmetic::power::lemma_pow_mod_noop(mult, e, n);
    vstd::arithmetic::power::lemma_pow_mod_noop(a, e, n);
    crate::util::lcg::lemma_aff_iter_pow(a, c, e);
}

/// `st - off - s * l` vanishes modulo `n` when `st` is `m * s + k`, `off` is `k` and `l` is `m`,
/// all modulo `n`.
proof fn lemma_lattice_arith(st: int, off: int, s: int, l: int, m: int, k: int, n: int)
    requires
        n > 0,
        st % n == (m * s + k) % n,
        off % n == k % n,
        l % n == m % n,
    ensures
        (st - off - s * l) % n == 0,
{
    let ms = m * s;
    lemma_sub_mod_noop(st, off, n);
    lemma_sub_mod_noop(ms + k, k, n);
    assert((st - off) % n == ms % n);
    lemma_mul_mod_noop_right(s, l, n);
    lemma_mul_mod_noop_right(s, m, n);
    lemma_mul_is_commutative(s, m);
    assert((s * l) % n == ms % n);
    lemma_sub_mod_noop(st - off, s * l, n);
    assert((st - off - s * l) % n == (ms % n - ms % n) % n);
    vstd::arithmetic::div_mod::lemma_small_mod(0, n as nat);
}

/// The remainder with the sign of the dividend is congruent to the dividend.
proof fn lemma_rem_trunc_cong(x: int, n: int)
    requires
        n > 0,
    ensures
        int_rem_trunc(x, n) % n == x % n,
{
    let q = crate::math::component::arith::int_div_trunc(x, n);
    lemma_mod_multiples_vanish(-q, x, n);
    assert(n * (-q) + x == int_rem_trunc(x, n)) by (nonlinear_arith)
        requires
            int_rem_trunc(x, n) == x - n * q,
    ;
}

/// `w[0] * m[0][c] + ... + w[n - 1] * m[n - 1][c]` over the numerators of column `c`.
pub open spec fn int_column_sum(w: Seq<int>, m: BigMatrix, c: int, n: nat) -> int
    decreases n,
{
    if n == 0 {
        0
    } else {
        int_column_sum(w, m, c, (n - 1) as nat) + w[n - 1] * m.entry(n - 1, c).n
    }
}

/// Over a column of integers, an integer combination is the integer sum of the products.
proof fn lemma_int_combination(w: Seq<int>, m: BigMatrix, c: int, n: nat)
    requires
        n <= m.row_count,
        w.len() == m.row_count,
        forall|t: int| 0 <= t < n ==> (#[trigger] m.entry(t, c)).d == 1,
    ensures
        q_dot(int_q_seq(w), m.column_values(c), n) == (Q { n: int_column_sum(w, m, c, n), d: 1 }),
    decreases n,
{
    if n > 0 {
        let n1 = (n - 1) as nat;
        lemma_int_combination(w, m, c, n1);
        let e = m.entry(n1 as int, c);
        assert(int_q_seq(w)[n1 as int] == q_int(w[n1 as int]));
        assert(m.column_values(c)[n1 as int] == e);
        assert(e.d == 1);
        let prev = int_column_sum(w, m, c, n1);
        let t = q_mul(q_int(w[n1 as int]), e);
        assert(t == (Q { n: w[n1 as int] * e.n, d: 1 })) by (nonlinear_arith)
            requires
                t == q_mul(q_int(w[n1 as int]), e),
                e.d == 1,
        ;
        assert(q_add(Q { n: prev, d: 1 }, t) == (Q { n: prev + w[n1 as int] * e.n, d: 1 })) by (nonlinear_arith)
            requires
                t == (Q { n: w[n1 as int] * e.n, d: 1 }),
        ;
    }
}

/// Where the entries of a column below its first are multiples of `m`, the integer sum is
/// the first weight times the first entry, modulo `m`.
proof fn lemma_int_column_sum_mod(w: Seq<int>, mat: BigMatrix, c: int, n: nat, m: int)
    requires
        1 <= n <= w.len(),
        m > 0,
        forall|t: int| 1 <= t < n ==> (#[trigger] mat.entry(t, c)).n % m == 0,
    ensures
        (int_column_sum(w, mat, c, n) - w[0] * mat.entry(0, c).n) % m == 0,
    decreases n,
{
    if n == 1 {
        assert(int_column_sum(w, mat, c, 0) == 0);
        vstd::arithmetic::div_mod::lemma_small_mod(0, m as nat);
    } else {
        let n1 = (n - 1) as nat;
        lemma_int_column_sum_mod(w, mat, c, n1, m);
        let x = int_column_sum(w, mat, c, n1) - w[0] * mat.entry(0, c).n;
        let e = mat.entry(n1 as int, c).n;
        vstd::arithmetic::div_mod::lemma_fundamental_div_mod(x, m);
        vstd::arithmetic::div_mod::lemma_fundamental_div_mod(e, m);
        let qx = x / m;
        let qe = e / m;
        assert(x + w[n1 as int] * e == m * (qx + w[n1 as int] * qe)) by (nonlinear_arith)
            requires
                x == m * qx + 0,
                e == m * qe + 0,
        ;
        vstd::arithmetic::div_mod::lemma_mod_multiples_basic(qx + w[n1 as int] * qe, m);
        assert((qx + w[n1 as int] * qe) * m == m * (qx + w[n1 as int] * qe)) by (nonlinear_arith);
    }
}

/// `x` is a multiple of `m` written as `m` times its quotient.
proof fn lemma_multiple(x: int, m: int)
    requires
        m > 0,
        x % m == 0,
    ensures
        x == m * (x / m),
{
    vstd::arithmetic::div_mod::lemma_fundamental_div_mod(x, m);
}

/// Congruent numbers differ by a multiple.
proof fn lemma_cong_multiple(x: int, y: int, n: int)
    requires
        n > 0,
        x % n == y % n,
    ensures
        (x - y) % n == 0,
{
    lemma_sub_mod_noop(x, y, n);
    vstd::arithmetic::div_mod::lemma_small_mod(0, n as nat);
}

/// The state at a call, less the offset and the point's coordinate, vanishes modulo `m`: the
/// arithmetic of [lemma_lattice_points_are_states].
proof fn lemma_point_arith(st: int, off: int, s: int, p0: int, pi: int, w0: int, l0i: int, a: int, c: int, n: int, m: int)
    requires
        n > 0,
        m > 0,
        n % m == 0,
        st % n == (a * s + c) % n,
        off % n == c % n,
        l0i % n == a % n,
        (s - p0) % n == 0,
        (p0 - w0) % n == 0,
        (pi - w0 * l0i) % m == 0,
    ensures
        (st - off - pi) % m == 0,
{
    lemma_cong_multiple(st, a * s + c, n);
    lemma_cong_multiple(off, c, n);
    lemma_cong_multiple(l0i, a, n);
    lemma_multiple(st - (a * s + c), n);
    lemma_multiple(off - c, n);
    lemma_multiple(l0i - a, n);
    lemma_multiple(s - p0, n);
    lemma_multiple(p0 - w0, n);
    lemma_multiple(pi - w0 * l0i, m);
    lemma_multiple(n, m);
    let q1 = (st - (a * s + c)) / n;
    let q2 = (off - c) / n;
    let q3 = (l0i - a) / n;
    let q4 = (s - p0) / n;
    let q5 = (p0 - w0) / n;
    let q6 = (pi - w0 * l0i) / m;
    let k = n / m;
    assert(st - off - pi == n * (q1 - q2 + a * (q4 + q5) - w0 * q3) - m * q6) by (nonlinear_arith)
        requires
            st - (a * s + c) == n * q1,
            off - c == n * q2,
            l0i - a == n * q3,
            s - p0 == n * q4,
            p0 - w0 == n * q5,
            pi - w0 * l0i == m * q6,
    ;
    let z = q1 - q2 + a * (q4 + q5) - w0 * q3;
    assert(n * z - m * q6 == m * (k * z - q6)) by (nonlinear_arith)
        requires
            n == m * k,
    ;
    vstd::arithmetic::div_mod::lemma_mod_multiples_basic(k * z - q6, m);
    assert((k * z - q6) * m == m * (k * z - q6)) by (nonlinear_arith);
}

/// Every point of the lattice is the vector of a seed's states less the offsets: let the
/// entries below the first row be multiples of the modulus in the first column (the first
/// measured call bounds the whole seed) and multiples of `m`, a divisor of the modulus, in
/// column `i`. A generator that reduces by masking and whose state at the first measured call
/// is congruent to the point's first coordinate has, at measured call `i`, a state congruent
/// modulo `m` to the point's coordinate `i` plus the offset. (With [lemma_states_on_lattice],
/// the lattice points are the seeds.)
pub proof fn lemma_lattice_points_are_states(r: &RandomReverser, w: Seq<int>, s: i64, i: int, m: int)
    requires
        r.wf(),
        r.lcg.masks(),
        0 <= i < r.dimensions,
        calls_forward(r.call_indices@, i),
        r.call_indices@[i] - r.call_indices@[0] <= i64::MAX,
        w.len() == r.lattice.row_count,
        m > 0,
        r.modulus@ % m == 0,
        forall|t: int| 1 <= t < r.lattice.row_count ==> (#[trigger] r.lattice.entry(t, 0)).n % r.modulus@ == 0,
        forall|t: int| 1 <= t < r.lattice.row_count ==> (#[trigger] r.lattice.entry(t, i)).n % m == 0,
        (s - combination(w, r.lattice, 0).n) % r.modulus@ == 0,
    ensures
        combination(w, r.lattice, 0).d == 1,
        combination(w, r.lattice, i).d == 1,
        (iterate_seed(r.lcg, (r.call_indices@[i] - r.call_indices@[0]) as nat, s) - offset_seed(r.lcg, r.call_indices@, i as nat)
            - combination(w, r.lattice, i).n) % m == 0,
{
    let lcg = r.lcg;
    let a = lcg.multiplier as int;
    let c = lcg.addend as int;
    let calls = r.call_indices@;
    let n = r.modulus@;
    let rows = r.lattice.row_count as nat;
    let e = (calls[i] - calls[0]) as nat;
    let pe = aff_iter(a, c, e);
    assert(period(lcg.modulus) == n) by {
        crate::util::lcg::lemma_period_positive(lcg.modulus);
    }
    lemma_int_combination(w, r.lattice, 0, rows);
    lemma_int_combination(w, r.lattice, i, rows);
    let p0 = int_column_sum(w, r.lattice, 0, rows);
    let pi = int_column_sum(w, r.lattice, i, rows);
    let l00 = r.lattice.entry(0, 0).n;
    let l0i = r.lattice.entry(0, i).n;
    // the first coordinate is the first weight, modulo the modulus
    lemma_int_column_sum_mod(w, r.lattice, 0, rows, n);
    lemma_int_column_sum_mod(w, r.lattice, i, rows, m);
    assert(l00 == lattice_mult(r.multiplier@, 0, n));
    assert(l00 % n == 1int % n) by {
        lemma_lattice_mult_cong(a, c, 0, n);
        assert(aff_iter(a, c, 0) == (1int, 0int));
    }
    assert((p0 - w[0]) % n == 0) by {
        lemma_multiple(p0 - w[0] * l00, n);
        lemma_cong_multiple(l00, 1, n);
        lemma_multiple(l00 - 1, n);
        let qa = (p0 - w[0] * l00) / n;
        let qb = (l00 - 1) / n;
        assert(p0 - w[0] == n * (qa + w[0] * qb)) by (nonlinear_arith)
            requires
                p0 - w[0] * l00 == n * qa,
                l00 - 1 == n * qb,
        ;
        vstd::arithmetic::div_mod::lemma_mod_multiples_basic(qa + w[0] * qb, n);
        assert((qa + w[0] * qb) * n == n * (qa + w[0] * qb)) by (nonlinear_arith);
    }
    // the state, the offset and the lattice entry through the affine map of the calls
    assert(iterate_seed(lcg, e, s) as int % n == (pe.0 * s + pe.1) % n) by {
        crate::util::lcg::lemma_iterate_cong(lcg, e, s);
    }
    assert(offset_seed(lcg, calls, i as nat) as int % n == pe.1 % n) by {
        lemma_calls_forward_from_first(calls, i, i);
        lemma_offset_cong(lcg, calls, i as nat);
    }
    assert(l0i == lattice_mult(r.multiplier@, e as int, n));
    assert(l0i % n == pe.0 % n) by {
        lemma_lattice_mult_cong(a, c, e, n);
    }
    lemma_point_arith(
        iterate_seed(lcg, e, s) as int,
        offset_seed(lcg, calls, i as nat) as int,
        s as int,
        p0,
        pi,
        w[0],
        l0i,
        pe.0,
        pe.1,
        n,
        m,
    );
}

/// The seed that [seed_of_point] gives for a point of the lattice runs through the point: let
/// the generator reduce by masking and have an odd multiplier, the first measured call come at
/// least one step after the seed, and the entries below the first row be multiples of the
/// modulus in the first column and of `m`, a divisor of the modulus, in column `i`. For a point
/// (the integer combination `w` of the lattice's rows) with a non-negative first coordinate,
/// the seed that the first coordinate, cut to 64 bits, gives when taken back to before the
/// first call has, at measured call `i`, a state congruent modulo `m` to the point's
/// coordinate `i` plus the offset.
pub proof fn lemma_point_seed_states(r: &RandomReverser, w: Seq<int>, seed: i64, i: int, m: int)
    requires
        r.wf(),
        r.lcg.masks(),
        r.lcg.multiplier % 2 == 1,
        0 <= i < r.dimensions,
        calls_forward(r.call_indices@, i),
        r.call_indices@[0] >= 1,
        w.len() == r.lattice.row_count,
        m > 0,
        r.modulus@ % m == 0,
        forall|t: int| 1 <= t < r.lattice.row_count ==> (#[trigger] r.lattice.entry(t, 0)).n % r.modulus@ == 0,
        forall|t: int| 1 <= t < r.lattice.row_count ==> (#[trigger] r.lattice.entry(t, i)).n % m == 0,
        combination(w, r.lattice, 0).n >= 0,
        seed == combined(r.lcg, (-r.call_indices@[0]) as i64).next_seed_spec(
            ((combination(w, r.lattice, 0).n % 0x1_0000_0000_0000_0000) as u64) as i64,
        ),
    ensures
        (iterate_seed(r.lcg, r.call_indices@[i] as nat, seed) - offset_seed(r.lcg, r.call_indices@, i as nat)
            - combination(w, r.lattice, i).n) % m == 0,
{
    let lcg = r.lcg;
    let calls = r.call_indices@;
    let n = r.modulus@;
    let e0 = calls[0];
    let p0 = combination(w, r.lattice, 0).n;
    let x = ((p0 % 0x1_0000_0000_0000_0000) as u64) as i64;
    lemma_calls_forward_from_first(calls, i, i);
    let ei = (calls[i] - calls[0]) as nat;
    // the state at the first measured call is the point's first coordinate, modulo the modulus
    let s0 = iterate_seed(lcg, e0 as nat, seed);
    crate::util::lcg::lemma_combine_iterates(lcg, e0, seed);
    assert(crate::util::lcg::unsigned(e0) == e0 as nat) by {
        vstd::arithmetic::div_mod::lemma_small_mod(e0 as nat, 0x1_0000_0000_0000_0000nat);
    }
    crate::util::lcg::lemma_combine_undoes(lcg, e0, x);
    assert(period(lcg.modulus) == n) by {
        crate::util::lcg::lemma_period_positive(lcg.modulus);
    }
    assert((s0 - x) % n == 0);
    assert((x - p0) % n == 0) by {
        let two64 = 0x1_0000_0000_0000_0000int;
        vstd::arithmetic::div_mod::lemma_fundamental_div_mod(p0, two64);
        let lo = p0 % two64;
        let u = lo as u64;
        assert(u as int == lo);
        assert((u as i64) as int == if u < 0x8000_0000_0000_0000u64 { u as int } else { u as int - 0x1_0000_0000_0000_0000 })
            by (bit_vector);
        assert(x == lo || x == lo - two64);
        let f = crate::util::lcg::lemma_period_factor(lcg.modulus);
        assert(n * f == two64);
        let q = p0 / two64;
        let d = if x == lo { -q * f } else { -(q + 1) * f };
        assert(x - p0 == n * d) by (nonlinear_arith)
            requires
                p0 == two64 * q + lo,
                x == lo || x == lo - two64,
                n * f == two64,
                d == (if x == lo { -q * f } else { -(q + 1) * f }),
        ;
        vstd::arithmetic::div_mod::lemma_mod_multiples_basic(d, n);
        assert(d * n == n * d) by (nonlinear_arith);
    }
    assert((s0 - p0) % n == 0) by {
        lemma_multiple(s0 - x, n);
        lemma_multiple(x - p0, n);
        let qa = (s0 - x) / n;
        let qb = (x - p0) / n;
        assert(s0 - p0 == n * (qa + qb)) by (nonlinear_arith)
            requires
                s0 - x == n * qa,
                x - p0 == n * qb,
        ;
        vstd::arithmetic::div_mod::lemma_mod_multiples_basic(qa + qb, n);
        assert((qa + qb) * n == n * (qa + qb)) by (nonlinear_arith);
    }
    // the states at the measured calls follow the lattice
    lemma_lattice_points_are_states(r, w, s0, i, m);
    crate::util::lcg::lemma_iterate_add(lcg, ei, e0 as nat, seed);
    assert(ei + e0 as nat == calls[i] as nat);
}

/// A rational equal to an integer has that integer as its value.
proof fn lemma_int_value(a: Q, k: int)
    requires
        a.d > 0,
        q_eq(a, q_int(k)),
    ensures
        a.n == k * a.d,
        crate::math::lattice::enumerate::q_int_value(a) == k,
{
    vstd::arithmetic::div_mod::lemma_div_multiples_vanish(k, a.d);
    assert(k * a.d == a.d * k) by (nonlinear_arith);
}

/// What the search finds runs through the seeds: let the generator reduce by masking and have
/// an odd multiplier, the first measured call come at least one step after the seed, and the
/// entries of the reverser's lattice below its first row be multiples of the modulus in the
/// first column and of `m`, a divisor of the modulus, in column `i`. Take a lattice `reduced`
/// whose rows are points of the reverser's lattice (as [RandomReverser::get_reduced_lattices]
/// gives), a node of the search over it, and its point `reduced^T fixed`. Where the point's first
/// coordinate is not negative, the seed that [seed_of_point] gives for it (that coordinate, cut
/// to 64 bits, taken back to before the first call) has, at measured call `i`, a state
/// congruent modulo `m` to the point's coordinate `i` plus the offset.
pub proof fn lemma_search_point_seed(
    r: &RandomReverser,
    reduced: BigMatrix,
    node: SearchNode,
    point: Seq<Q>,
    seed: i64,
    i: int,
    m: int,
)
    requires
        r.wf(),
        r.lcg.masks(),
        r.lcg.multiplier % 2 == 1,
        0 <= i < r.dimensions,
        calls_forward(r.call_indices@, i),
        r.call_indices@[0] >= 1,
        m > 0,
        r.modulus@ % m == 0,
        forall|t: int| 1 <= t < r.lattice.row_count ==> (#[trigger] r.lattice.entry(t, 0)).n % r.modulus@ == 0,
        forall|t: int| 1 <= t < r.lattice.row_count ==> (#[trigger] r.lattice.entry(t, i)).n % m == 0,
        reduced.wf(),
        reduced.column_count == r.dimensions,
        reduced.row_count == node.size,
        forall|k: int| 0 <= k < reduced.row_count ==> in_lattice(reduced, k, r.lattice),
        node.wf(),
        point.len() == r.dimensions,
        forall|c: int|
            0 <= c < point.len() ==> q_eq(#[trigger] point[c], q_dot(reduced.column_values(c), node.fixed.values(), node.size as nat)),
        point[0].d > 0,
        point[0].n >= 0,
        seed == combined(r.lcg, (-r.call_indices@[0]) as i64).next_seed_spec(
            ((crate::math::lattice::enumerate::q_int_value(point[0]) % 0x1_0000_0000_0000_0000) as u64) as i64,
        ),
    ensures
        point[i].d > 0 ==> (iterate_seed(r.lcg, r.call_indices@[i] as nat, seed) - offset_seed(r.lcg, r.call_indices@, i as nat)
            - crate::math::lattice::enumerate::q_int_value(point[i])) % m == 0,
{
    crate::math::lattice::enumerate::lemma_node_point_in_lattice(node, reduced, r.lattice, point);
    let w = choose|w: Seq<int>| #[trigger] point_combines(point, r.lattice, w);
    assert(point_combines(point, r.lattice, w));
    let rows = r.lattice.row_count as nat;
    lemma_int_combination(w, r.lattice, 0, rows);
    lemma_int_combination(w, r.lattice, i, rows);
    let p0 = int_column_sum(w, r.lattice, 0, rows);
    let pi = int_column_sum(w, r.lattice, i, rows);
    assert(q_eq(point[0], q_int(p0)));
    lemma_int_value(point[0], p0);
    assert(p0 >= 0) by (nonlinear_arith)
        requires
            point[0].n == p0 * point[0].d,
            point[0].n >= 0,
            point[0].d > 0,
    ;
    lemma_point_seed_states(r, w, seed, i, m);
    if point[i].d > 0 {
        assert(q_eq(point[i], q_int(pi)));
        lemma_int_value(point[i], pi);
    }
}

} // verus!
