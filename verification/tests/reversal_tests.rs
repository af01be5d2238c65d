use rusticg::math::component::big_matrix::BigMatrix;
use rusticg::math::component::big_vector::{OwnedBigVector, Vector};
use rusticg::math::component::rational::{BigInteger, BigRational};
use rusticg::math::lattice::enumerate::{prepare_search, SearchNode};
use rusticg::reversal::dynamic_program::{AsFilterFn, CallType, DynamicProgram, Invertible, ReversalError};
use rusticg::reversal::java::java_random::next_int;
use rusticg::reversal::java::java_random_reverser::{
    add_bound_next_int_call, add_next_boolean_call, add_next_double_seeds, add_next_int_call, add_next_long_call,
    double_second_count,
};
use rusticg::reversal::random_reverser::{seed_of_point, FilteredSkip, RandomReverser, SeedFilter};
use rusticg::util::lcg::{java, Random, LCG};
use rusticg::util::parallel_iterator::ParallelIterator;

fn int_lt(a: &BigInteger, b: &BigInteger) -> bool {
    a.less_than(b)
}

fn rat_eq(a: &BigRational, b: &BigRational) -> bool {
    a.equals(b)
}

fn rat_lt(a: &BigRational, b: &BigRational) -> bool {
    a.less_than(b)
}

fn int_is(a: &BigInteger, v: i64) -> bool {
    let b = BigInteger::from_i64(v);
    !int_lt(a, &b) && !int_lt(&b, a)
}

fn int_is_i128(a: &BigInteger, v: i128) -> bool {
    let b = BigInteger::from_i128(v);
    !int_lt(a, &b) && !int_lt(&b, a)
}

fn rat_is(a: &BigRational, v: i128) -> bool {
    rat_eq(a, &BigRational::from_integer(BigInteger::from_i128(v)))
}

fn region(r: &RandomReverser, b: usize) -> Vec<(i128, i128)> {
    let bounds = &r.bounds[b];
    let mut out = Vec::new();
    for i in 0..bounds.mins.len() {
        out.push((value(&bounds.mins[i]), value(&bounds.maxes[i])));
    }
    out
}

fn value(x: &BigInteger) -> i128 {
    let mut v: i128 = 0;
    for (k, limb) in x.magnitude.limbs.iter().enumerate() {
        v += (*limb as i128) << (64 * k);
    }
    if x.non_negative {
        v
    } else {
        -v
    }
}

#[test]
fn reverser_starts_empty() {
    let r = RandomReverser::new(java());
    assert!(int_is_i128(&r.modulus, 1i128 << 48));
    assert!(int_is(&r.multiplier, 0x5DEECE66D));
    assert_eq!(r.bounds.len(), 1);
    assert_eq!(r.dimensions, 0);
    assert_eq!(r.current_call_index, 0);
    assert!(r.call_indices.is_empty());
    assert!(rat_eq(&r.success_chance, &BigRational::one()));
}

#[test]
fn reverser_full_width_modulus() {
    let r = RandomReverser::new(LCG::new(-3, 1, 0));
    assert!(int_is_i128(&r.modulus, 1i128 << 64));
    assert!(int_is(&r.multiplier, -3));
}

#[test]
fn measured_seed_builds_the_lattice() {
    let mut r = RandomReverser::new(java());
    r.add_measured_seed(vec![5], vec![10]);
    assert_eq!(r.dimensions, 1);
    assert_eq!(r.call_indices, vec![1]);
    assert_eq!(region(&r, 0), vec![(5, 10)]);
    assert!(rat_is(r.lattice.get(0, 0), 1));
    assert!(rat_is(r.lattice.get(1, 0), 1i128 << 48));
    r.add_unmeasured_seeds(2);
    r.add_measured_seed(vec![-3], vec![-7]);
    assert_eq!(r.call_indices, vec![1, 4]);
    assert_eq!(r.dimensions, 2);
    // -3 and -7 keep their sign; the upper end below the lower one wraps by the modulus
    assert_eq!(region(&r, 0), vec![(5, 10), (-3, -7 + (1i128 << 48))]);
    assert!(rat_is(r.lattice.get(0, 1), 233752471717045));
    assert!(rat_is(r.lattice.get(2, 1), 1i128 << 48));
    assert!(rat_is(r.lattice.get(1, 0), 1i128 << 48));
    assert!(rat_is(r.lattice.get(2, 0), 0));
}

#[test]
fn several_ranges_multiply_the_regions() {
    let mut r = RandomReverser::new(java());
    r.add_measured_seed(vec![0, 100], vec![10, 110]);
    r.add_measured_seed(vec![1, 2, 3], vec![4, 5, 6]);
    assert_eq!(r.bounds.len(), 6);
    assert_eq!(region(&r, 0), vec![(0, 10), (1, 4)]);
    assert_eq!(region(&r, 1), vec![(100, 110), (1, 4)]);
    assert_eq!(region(&r, 5), vec![(100, 110), (3, 6)]);
}

#[test]
fn modulo_seed_dividing_the_modulus() {
    let mut r = RandomReverser::new(java());
    r.add_modulo_measured_seeds(vec![3], vec![20], 16);
    assert_eq!(r.dimensions, 1);
    assert_eq!(region(&r, 0), vec![(3, 4)]);
    assert!(rat_is(r.lattice.get(1, 0), 16));
    assert!(rat_eq(&r.success_chance, &BigRational::one()));
}

#[test]
fn modulo_seed_not_dividing_the_modulus() {
    let mut r = RandomReverser::new(java());
    r.add_modulo_measured_seeds(vec![1], vec![2], 10);
    assert_eq!(r.dimensions, 2);
    assert_eq!(r.call_indices, vec![1, 1]);
    let n = 1i128 << 48;
    let residue = n % 10;
    assert_eq!(region(&r, 0), vec![(0, n - residue), (1, 2)]);
    assert!(rat_is(r.lattice.get(0, 0), 1) && rat_is(r.lattice.get(0, 1), 1));
    assert!(rat_is(r.lattice.get(1, 0), n) && rat_is(r.lattice.get(1, 1), n));
    assert!(rat_is(r.lattice.get(2, 1), 10) && rat_is(r.lattice.get(2, 0), 0));
    let keep = BigRational::one().minus(&BigRational::from_signeds(residue as i64, n as i64));
    assert!(rat_eq(&r.success_chance, &keep));
}

#[test]
fn next_int_call_bounds() {
    let mut r = RandomReverser::new(java());
    add_next_int_call(&mut r, vec![-1], vec![2]);
    assert_eq!(region(&r, 0), vec![(-65536, 3 * 65536 - 1)]);
}

#[test]
fn bound_next_int_power_of_two() {
    let mut r = RandomReverser::new(java());
    add_bound_next_int_call(&mut r, 16, vec![3], vec![3]);
    assert_eq!(region(&r, 0), vec![(3i128 << 44, (4i128 << 44) - 1)]);
    assert_eq!(r.dimensions, 1);
}

#[test]
fn bound_next_int_other_bound() {
    let mut r = RandomReverser::new(java());
    add_bound_next_int_call(&mut r, 10, vec![3], vec![3]);
    // modulo 10 * 2^17, which does not divide 2^48: a bounding range, then the residue range
    assert_eq!(r.dimensions, 2);
    let m = 10i128 << 17;
    let n = 1i128 << 48;
    assert_eq!(region(&r, 0), vec![(0, n - n % m), (3 << 17, (3 << 17) + 0x1FFFF)]);
}

#[test]
fn next_boolean_call_bounds() {
    let mut r = RandomReverser::new(java());
    add_next_boolean_call(&mut r, true);
    assert_eq!(region(&r, 0), vec![(1i128 << 47, (1i128 << 48) - 1)]);
    let mut s = RandomReverser::new(java());
    add_next_boolean_call(&mut s, false);
    assert_eq!(region(&s, 0), vec![(0, (1i128 << 47) - 1)]);
}

#[test]
fn next_long_call_bounds() {
    let mut r = RandomReverser::new(java());
    add_next_long_call(&mut r, vec![5], vec![5]);
    assert_eq!(r.dimensions, 2);
    assert_eq!(r.call_indices, vec![1, 2]);
    assert_eq!(region(&r, 0), vec![(0, 65536), (5 << 16, (6 << 16) - 1)]);
}

#[test]
fn next_double_seeds_bounds() {
    let mut r = RandomReverser::new(java());
    add_next_double_seeds(&mut r, vec![5], vec![5]);
    assert_eq!(r.dimensions, 2);
    assert_eq!(r.call_indices, vec![1, 2]);
    assert_eq!(region(&r, 0)[1], (5 << 21, (5 << 21) | 0x1F_FFFF));
}

#[test]
fn next_double_second_ranges_kept() {
    assert_eq!(double_second_count(&vec![0, 0], &vec![5, 1 << 40]), 1);
    assert_eq!(double_second_count(&vec![10], &vec![3]), 1);
    assert_eq!(double_second_count(&vec![0], &vec![(1 << 53) + 3]), 1);
}

struct Always(bool);

impl SeedFilter for Always {
    fn verdict(&self, _lcg: LCG, _seed: i64) -> bool {
        self.0
    }

    fn accepts(&self, _rand: &mut Random) -> bool {
        self.0
    }
}

struct FirstIntIs(i32);

impl SeedFilter for FirstIntIs {
    fn verdict(&self, lcg: LCG, seed: i64) -> bool {
        next_int(&mut Random::of_seed(lcg, seed)) == self.0
    }

    fn accepts(&self, rand: &mut Random) -> bool {
        next_int(rand) == self.0
    }
}

#[test]
fn filtered_skip_checks_the_advanced_state() {
    let skip = FilteredSkip::new(0, Box::new(FirstIntIs(-1155484576)));
    let mut rand = Random::of_seed(java(), 0x5DEECE66D);
    assert!(skip.check_state(&mut rand));
    let later = FilteredSkip::new(1, Box::new(FirstIntIs(-1155484576)));
    let mut rand2 = Random::of_seed(java(), 0x5DEECE66D);
    assert!(!later.check_state(&mut rand2));
}

#[test]
fn reverser_filters() {
    let mut r = RandomReverser::new(java());
    assert!(r.passes_filters(1));
    r.add_filtered_skip(FilteredSkip::new(0, Box::new(Always(false))));
    assert!(!r.passes_filters(1));
}

struct Measure {
    value: i32,
    fail: bool,
}

impl CallType for Measure {
    fn calls(&self) -> i64 {
        1
    }

    fn adds(&self, _before: RandomReverser, _after: RandomReverser) -> bool {
        true
    }

    fn add_result(&self) -> Result<(), ReversalError> {
        if self.fail {
            Err(ReversalError::TooSmallBound)
        } else {
            Ok(())
        }
    }

    fn num_calls(&self) -> i64 {
        1
    }

    fn add_to(&self, reverser: &mut RandomReverser) -> Result<(), ReversalError> {
        if self.fail {
            return Err(ReversalError::TooSmallBound);
        }
        add_next_int_call(reverser, vec![self.value], vec![self.value]);
        Ok(())
    }
}

struct Filter {
    fail: bool,
}

impl AsFilterFn for Filter {
    fn calls(&self) -> i64 {
        2
    }

    fn filter_fails(&self) -> bool {
        self.fail
    }

    fn filter_error(&self) -> ReversalError {
        ReversalError::RangeIsEmpty
    }

    fn num_calls(&self) -> i64 {
        2
    }

    fn as_filter_fn(&self) -> Result<Box<dyn SeedFilter>, ReversalError> {
        if self.fail {
            Err(ReversalError::RangeIsEmpty)
        } else {
            Ok(Box::new(Always(true)))
        }
    }
}

impl Invertible for Filter {
    fn invert(self) -> Box<Self> {
        Box::new(Filter { fail: !self.fail })
    }
}

#[test]
fn dynamic_program_tracks_indices() {
    let mut p = DynamicProgram::create(java());
    p.skip(3);
    assert_eq!(p.current_skip, 3);
    assert_eq!(p.current_index, 3);
    assert!(p.add(Box::new(Measure { value: 7, fail: false })).is_ok());
    assert_eq!(p.current_skip, 0);
    assert_eq!(p.current_index, 4);
    assert_eq!(p.random_reverser.call_indices, vec![4]);
    assert!(p.add_filter(Box::new(Filter { fail: false })).is_ok());
    assert_eq!(p.current_index, 6);
    assert_eq!(p.current_skip, 2);
    assert_eq!(p.random_reverser.filtered_skips.len(), 1);
    p.add_filter_fn(Box::new(Always(true)), 5);
    assert_eq!(p.current_index, 11);
    assert_eq!(p.random_reverser.filtered_skips.len(), 2);
}

#[test]
fn dynamic_program_errors() {
    let mut p = DynamicProgram::create(java());
    p.skip(2);
    assert_eq!(p.add(Box::new(Measure { value: 7, fail: true })).err(), Some(ReversalError::TooSmallBound));
    assert_eq!(p.current_skip, 2);
    assert_eq!(p.current_index, 2);
    assert_eq!(p.add_filter(Box::new(Filter { fail: true })).err(), Some(ReversalError::RangeIsEmpty));
    assert_eq!(p.random_reverser.filtered_skips.len(), 0);
    let inverted = Filter { fail: true }.invert();
    assert!(!inverted.fail);
}

#[test]
fn reversal_error_names() {
    assert_eq!(ReversalError::RangeIsEmpty.to_string(), "RangeIsEmpty");
    assert_eq!(ReversalError::TooSmallBound.to_string(), "TooSmallBound");
    assert_eq!(ReversalError::MaxLowerThanMin.to_string(), "MaxLowerThanMin");
    assert_eq!(ReversalError::MinLessThanLowerBound.to_string(), "MinLessThanLowerBound");
    assert_eq!(ReversalError::MaxGreaterThanUpperBound.to_string(), "MaxGreaterThanUpperBound");
}

#[test]
fn parallel_iterator_delivers_sent_values() {
    let mut it: ParallelIterator<i32> = ParallelIterator::new();
    let s = it.get_new_sender();
    s.send(1).unwrap();
    s.send(2).unwrap();
    drop(s);
    assert_eq!(it.next(), Some(1));
    assert_eq!(it.next(), Some(2));
    assert_eq!(it.next(), None);
}

fn search_all(r: &RandomReverser) -> Vec<i64> {
    let lattices = r.get_reduced_lattices();
    let (lower, upper) = r.bound_vectors();
    let offset = r.seed_offset();
    let back = r.seed_reverser();
    let mut seeds = Vec::new();
    for ((lattice, lo), hi) in lattices.into_iter().zip(lower.into_iter()).zip(upper.into_iter()) {
        let basis = lattice.transpose();
        let search = prepare_search(lattice.transpose(), lo, hi, &offset).expect("search");
        let mut stack: Vec<SearchNode> = vec![search.root];
        while let Some(node) = stack.pop() {
            if node.depth == node.size {
                let point = basis.mul_vector(&node.fixed);
                seeds.push(seed_of_point(&point, &offset, &back));
                continue;
            }
            let children = node.expand(&search.inverse, &search.origin, &search.order).expect("children");
            stack.extend(children);
        }
    }
    seeds.into_iter().filter(|s| r.passes_filters(*s)).collect()
}

#[test]
fn reverses_two_next_int_calls() {
    let seed = 123456789i64;
    let mut rand = Random::of_seed(java(), seed);
    let a = next_int(&mut rand);
    let b = next_int(&mut rand);
    assert_eq!((a, b), (1820451251, 1221384887));
    let mut r = RandomReverser::new(java());
    add_next_int_call(&mut r, vec![a], vec![a]);
    add_next_int_call(&mut r, vec![b], vec![b]);
    let seeds = search_all(&r);
    assert!(seeds.contains(&seed));
    for s in &seeds {
        let mut check = Random::of_seed(java(), *s);
        assert_eq!(next_int(&mut check), a);
        assert_eq!(next_int(&mut check), b);
    }
}

#[test]
fn offsets_and_reverser_of_the_lattice() {
    let mut r = RandomReverser::new(java());
    r.add_unmeasured_seeds(1);
    r.add_measured_seed(vec![0], vec![10]);
    r.add_measured_seed(vec![0], vec![10]);
    let offset = r.seed_offset();
    assert!(rat_is(offset.get(0), 0));
    assert!(rat_is(offset.get(1), 11));
    let back = r.seed_reverser();
    let j = java();
    assert_eq!(back.next_seed(j.next_seed(j.next_seed(77))), 77);
    let (lo, hi) = r.bound_vectors();
    assert!(rat_is(lo[0].get(1), 0) && rat_is(hi[0].get(1), 10));
    let _ = BigMatrix::new(0, 0);
    let _ = OwnedBigVector::new(0);
}

#[test]
fn next_int_output_lies_in_its_range() {
    for start in [0i64, 1, 123456789, 0xFFFF_FFFF_FFFF, 0x5DEECE66D] {
        let mut rand = Random::of_seed(java(), start);
        let v = next_int(&mut rand);
        let state = rand.get_seed() as i128;
        let lo = (v as i128) << 16;
        let n = 1i128 << 48;
        let offset = (state - lo).rem_euclid(n);
        assert!(offset <= 0xFFFF);
        let mut r = RandomReverser::new(java());
        add_next_int_call(&mut r, vec![v], vec![v]);
        assert_eq!(region(&r, 0), vec![(lo, lo + 0xFFFF)]);
    }
}

#[test]
fn next_boolean_output_lies_in_its_range() {
    for start in [0i64, 7, 123456789, 0x5DEECE66D] {
        let mut rand = Random::of_seed(java(), start);
        let b = rusticg::reversal::java::java_random::next_boolean(&mut rand);
        let state = rand.get_seed() as i128;
        let mut r = RandomReverser::new(java());
        add_next_boolean_call(&mut r, b);
        let (lo, hi) = region(&r, 0)[0];
        assert!(lo <= state && state <= hi);
    }
}

#[test]
fn seeds_lie_on_the_lattice() {
    let j = java();
    let mut r = RandomReverser::new(j);
    r.add_unmeasured_seeds(2);
    r.add_measured_seed(vec![0], vec![1]);
    r.add_unmeasured_seeds(3);
    r.add_measured_seed(vec![0], vec![1]);
    r.add_measured_seed(vec![0], vec![1]);
    let calls = r.call_indices.clone();
    let offset = r.seed_offset();
    let n = 1i128 << 48;
    for s in [0i64, 1, 99, 123456789, 0xFFFF_FFFF_FFFF] {
        let mut state = s;
        let mut at = calls[0];
        for i in 0..calls.len() {
            while at < calls[i] {
                state = j.next_seed(state);
                at += 1;
            }
            let off = value_of(offset.get(i));
            let l = value_of(r.lattice.get(0, i));
            assert_eq!((state as i128 - off - (s as i128) * l).rem_euclid(n), 0);
        }
    }
}

fn value_of(x: &BigRational) -> i128 {
    assert!(rat_eq(x, &BigRational::from_integer(x.floor())));
    value(&x.floor())
}

#[test]
fn lattice_points_are_seeds() {
    let j = java();
    let mut r = RandomReverser::new(j);
    r.add_unmeasured_seeds(1);
    r.add_measured_seed(vec![0], vec![1]);
    r.add_unmeasured_seeds(2);
    r.add_measured_seed(vec![0], vec![1]);
    r.add_measured_seed(vec![0], vec![1]);
    let calls = r.call_indices.clone();
    let offset = r.seed_offset();
    let n = 1i128 << 48;
    let rows = r.lattice.row_count;
    let cols = r.lattice.column_count;
    for w in [vec![1i128, 0, 0, 0], vec![3, -1, 2, 5], vec![-7, 4, 0, -2]] {
        assert_eq!(w.len(), rows);
        let point: Vec<i128> = (0..cols)
            .map(|c| (0..rows).map(|t| w[t] * value_of(r.lattice.get(t, c))).sum())
            .collect();
        let mut state = point[0].rem_euclid(n) as i64;
        let mut at = calls[0];
        for i in 0..cols {
            while at < calls[i] {
                state = j.next_seed(state);
                at += 1;
            }
            let off = value_of(offset.get(i));
            assert_eq!((state as i128 - off - point[i]).rem_euclid(n), 0);
        }
    }
}

#[test]
fn reduced_lattice_rows_are_lattice_points() {
    let j = java();
    let mut r = RandomReverser::new(j);
    r.add_measured_seed(vec![0], vec![(1i64 << 40) - 1]);
    r.add_measured_seed(vec![0], vec![(1i64 << 40) - 1]);
    let lattices = r.get_reduced_lattices();
    assert_eq!(lattices.len(), 1);
    let reduced = &lattices[0];
    let n = 1i128 << 48;
    let mult = value_of(r.lattice.get(0, 1));
    for row in 0..reduced.row_count {
        let x = value_of(reduced.get(row, 0));
        let y = value_of(reduced.get(row, 1));
        // the lattice is {(s, s * mult) + multiples of n}: a point has y = x * mult modulo n
        assert_eq!((y - x * mult).rem_euclid(n), 0);
    }
}

#[test]
fn integer_combinations_of_lattice_points_are_lattice_points() {
    let j = java();
    let mut r = RandomReverser::new(j);
    r.add_measured_seed(vec![0], vec![(1i64 << 40) - 1]);
    r.add_measured_seed(vec![0], vec![(1i64 << 40) - 1]);
    let lattices = r.get_reduced_lattices();
    let reduced = &lattices[0];
    let n = 1i128 << 48;
    let mult = value_of(r.lattice.get(0, 1));
    assert_eq!(reduced.row_count, 2);
    for f in [[1i128, 1], [3, -2], [-5, 7], [0, 11]] {
        let x: i128 = (0..2).map(|k| f[k] * value_of(reduced.get(k, 0))).sum();
        let y: i128 = (0..2).map(|k| f[k] * value_of(reduced.get(k, 1))).sum();
        assert_eq!((y - x * mult).rem_euclid(n), 0);
    }
}

#[test]
fn search_orders_coordinates_by_width() {
    let mut r = RandomReverser::new(java());
    add_next_int_call(&mut r, vec![5], vec![5]);
    add_next_int_call(&mut r, vec![-100], vec![100]);
    let lattices = r.get_reduced_lattices();
    let (lower, upper) = r.bound_vectors();
    let offset = r.seed_offset();
    let lattice = &lattices[0];
    let search = prepare_search(
        lattice.transpose(),
        lower.into_iter().next().unwrap(),
        upper.into_iter().next().unwrap(),
        &offset,
    )
    .expect("search");
    let n = search.order.len();
    assert_eq!(n, lattice.row_count);
    let mut seen = vec![false; n];
    for &k in &search.order {
        assert!(!seen[k]);
        seen[k] = true;
    }
    for a in 0..n {
        for b in a + 1..n {
            let (x, y) = (search.order[a], search.order[b]);
            let (wx, wy) = (&search.widths[x], &search.widths[y]);
            assert!(rat_lt(wx, wy) || (!rat_lt(wy, wx) && x < y));
        }
    }
}

#[test]
fn seeds_of_lattice_points_run_through_them() {
    let j = java();
    let mut r = RandomReverser::new(j);
    r.add_unmeasured_seeds(3);
    r.add_measured_seed(vec![0], vec![1]);
    r.add_measured_seed(vec![0], vec![1]);
    r.add_unmeasured_seeds(4);
    r.add_measured_seed(vec![0], vec![1]);
    let calls = r.call_indices.clone();
    let offset = r.seed_offset();
    let back = r.seed_reverser();
    let n = 1i128 << 48;
    let rows = r.lattice.row_count;
    let cols = r.lattice.column_count;
    for w in [vec![1i128, 0, 0, 0], vec![12345, 2, -1, 3], vec![99, 0, 7, -4]] {
        let point: Vec<i128> = (0..cols)
            .map(|c| (0..rows).map(|t| w[t] * value_of(r.lattice.get(t, c))).sum())
            .collect();
        assert!(point[0] >= 0);
        let numbers: Vec<BigRational> = point
            .iter()
            .map(|v| BigRational::from_integer(BigInteger::from_i128(*v)))
            .collect();
        let vector = OwnedBigVector::new_from_numbers(numbers);
        let seed = seed_of_point(&vector, &offset, &back);
        let mut state = seed;
        let mut at = 0i64;
        for i in 0..cols {
            while at < calls[i] {
                state = j.next_seed(state);
                at += 1;
            }
            let off = value_of(offset.get(i));
            assert_eq!((state as i128 - off - point[i]).rem_euclid(n), 0);
        }
    }
}

#[test]
fn search_points_are_lattice_points() {
    let seed = 987654321i64;
    let mut rand = Random::of_seed(java(), seed);
    let a = next_int(&mut rand);
    let b = next_int(&mut rand);
    let mut r = RandomReverser::new(java());
    add_next_int_call(&mut r, vec![a], vec![a]);
    add_next_int_call(&mut r, vec![b], vec![b]);
    let n = 1i128 << 48;
    let mult = value_of(r.lattice.get(0, 1));
    let lattices = r.get_reduced_lattices();
    let (lower, upper) = r.bound_vectors();
    let offset = r.seed_offset();
    let mut leaves = 0;
    for ((lattice, lo), hi) in lattices.into_iter().zip(lower.into_iter()).zip(upper.into_iter()) {
        let basis = lattice.transpose();
        let search = prepare_search(lattice.transpose(), lo, hi, &offset).expect("search");
        let mut stack: Vec<SearchNode> = vec![search.root];
        while let Some(node) = stack.pop() {
            if node.depth == node.size {
                let point = basis.mul_vector(&node.fixed);
                let x = value_of(point.get(0));
                let y = value_of(point.get(1));
                assert_eq!((y - x * mult).rem_euclid(n), 0);
                leaves += 1;
                continue;
            }
            stack.extend(node.expand(&search.inverse, &search.origin, &search.order).expect("children"));
        }
    }
    assert!(leaves >= 1);
}
