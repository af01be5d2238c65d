use rusticg::math::component::big_matrix::BigMatrix;
use rusticg::math::component::big_vector::{vec_add, vec_scale, vec_sub, Dot, IsZero, MagnitudeSq, OwnedBigVector, Vector};
use rusticg::math::component::rational::{BigInteger, BigNatural, BigRational};
use rusticg::math::lattice::decomposition::inverse;
use rusticg::math::lattice::lll;
use rusticg::math::optimize::gauss_jordan::{reduce, reduce_matrix, reduce_with_action};
use rusticg::math::optimize::optimize::OptimizeBuilder;
use rusticg::util::util::{ToU64, LCM};

fn rat_add(a: &BigRational, b: &BigRational) -> BigRational {
    a.plus(b)
}

fn rat_sub(a: &BigRational, b: &BigRational) -> BigRational {
    a.minus(b)
}

fn rat_mul(a: &BigRational, b: &BigRational) -> BigRational {
    a.times(b)
}

fn rat_div(a: &BigRational, b: &BigRational) -> BigRational {
    a.divided_by(b)
}

fn rat_eq(a: &BigRational, b: &BigRational) -> bool {
    a.equals(b)
}

fn rat_lt(a: &BigRational, b: &BigRational) -> bool {
    a.less_than(b)
}

fn rat_floor(a: &BigRational) -> BigInteger {
    a.floor()
}

fn rat_ceiling(a: &BigRational) -> BigInteger {
    a.ceiling()
}

fn int_add(a: &BigInteger, b: &BigInteger) -> BigInteger {
    a.plus(b)
}

fn int_sub(a: &BigInteger, b: &BigInteger) -> BigInteger {
    a.minus(b)
}

fn int_mul(a: &BigInteger, b: &BigInteger) -> BigInteger {
    a.times(b)
}

fn int_div(a: &BigInteger, b: &BigInteger) -> BigInteger {
    a.quotient(b)
}

fn int_rem(a: &BigInteger, b: &BigInteger) -> BigInteger {
    a.remainder(b)
}

fn int_pow(a: &BigInteger, e: u64) -> BigInteger {
    a.power(e)
}

fn int_gcd(a: &BigInteger, b: &BigInteger) -> BigNatural {
    a.gcd(b)
}

fn int_lt(a: &BigInteger, b: &BigInteger) -> bool {
    a.less_than(b)
}

fn q(n: i64, d: i64) -> BigRational {
    BigRational::from_signeds(n, d)
}

fn z(n: i64) -> BigRational {
    BigRational::from_i64(n)
}

fn same(a: &BigRational, b: &BigRational) -> bool {
    rat_eq(a, b)
}

fn int_is(a: &BigInteger, v: i64) -> bool {
    let b = BigInteger::from_i64(v);
    !int_lt(a, &b) && !int_lt(&b, a)
}

fn mat(rows: &[&[i64]]) -> BigMatrix {
    let r = rows.len();
    let c = if r == 0 { 0 } else { rows[0].len() };
    let mut m = BigMatrix::new(r, c);
    for i in 0..r {
        for j in 0..c {
            m.set(i, j, z(rows[i][j]));
        }
    }
    m
}

fn mat_is(m: &BigMatrix, rows: &[&[i64]]) -> bool {
    if m.row_count != rows.len() {
        return false;
    }
    for i in 0..rows.len() {
        if m.column_count != rows[i].len() {
            return false;
        }
        for j in 0..rows[i].len() {
            if !same(m.get(i, j), &z(rows[i][j])) {
                return false;
            }
        }
    }
    true
}

#[test]
fn rational_arithmetic() {
    assert!(same(&rat_add(&q(1, 2), &q(1, 3)), &q(5, 6)));
    assert!(same(&rat_sub(&q(1, 2), &q(1, 3)), &q(1, 6)));
    assert!(same(&rat_mul(&q(2, 3), &q(3, 4)), &q(1, 2)));
    assert!(same(&rat_div(&q(1, 2), &q(1, 4)), &z(2)));
    assert!(rat_lt(&q(1, 3), &q(1, 2)));
    assert!(!rat_lt(&q(1, 2), &q(1, 2)));
    assert!(same(&q(2, 4), &q(1, 2)));
    assert!(!same(&q(1, 4), &q(1, 2)));
}

#[test]
fn rational_floor_and_ceiling() {
    assert!(int_is(&rat_floor(&q(7, 2)), 3));
    assert!(int_is(&rat_floor(&q(-7, 2)), -4));
    assert!(int_is(&rat_ceiling(&q(7, 2)), 4));
    assert!(int_is(&rat_ceiling(&q(-7, 2)), -3));
    assert!(int_is(&rat_floor(&z(5)), 5));
}

#[test]
fn integer_arithmetic() {
    let a = BigInteger::from_i64(-23);
    let b = BigInteger::from_i64(10);
    assert!(int_is(&int_add(&a, &b), -13));
    assert!(int_is(&int_sub(&a, &b), -33));
    assert!(int_is(&int_mul(&a, &b), -230));
    assert!(int_is(&int_div(&a, &b), -2));
    assert!(int_is(&int_rem(&a, &b), -3));
    assert!(int_is(&int_rem(&BigInteger::from_i64(23), &BigInteger::from_i64(-10)), 3));
    assert!(int_is(&int_pow(&BigInteger::from_i64(-3), 3), -27));
    assert!(int_is(&int_pow(&b, 0), 1));
    assert_eq!(int_gcd(&BigInteger::from_i64(12), &BigInteger::from_i64(-18)).to_u64(), 6);
}

#[test]
fn lcm_of_integers() {
    let a = BigInteger::from_i64(4);
    let b = BigInteger::from_i64(6);
    assert!(int_is(&a.lcm(&b), 12));
    assert!(int_is(&BigInteger::from_i64(-4).lcm(&b), -12));
    assert!(int_is(&BigInteger::from_i64(7).lcm(&BigInteger::from_i64(1)), 7));
    assert!(int_is(&BigInteger::from_i64(5).lcm(&BigInteger::from_i64(0)), 0));
}

#[test]
fn to_u64_takes_the_low_limb() {
    assert_eq!(BigNatural::zero().to_u64(), 0);
    assert_eq!(BigNatural::from_u64(77).to_u64(), 77);
    let big = BigNatural { limbs: vec![5, 1] };
    assert_eq!(big.to_u64(), 5);
    let two = BigInteger::from_i64(2);
    let p = int_pow(&two, 70);
    assert_eq!(p.magnitude.to_u64(), 0);
}

#[test]
fn big_integer_from_i128() {
    let x = BigInteger::from_i128(-(1i128 << 70) - 3);
    let y = int_sub(&BigInteger::from_i64(0), &int_add(&int_pow(&BigInteger::from_i64(2), 70), &BigInteger::from_i64(3)));
    assert!(!int_lt(&x, &y) && !int_lt(&y, &x));
}

#[test]
fn rational_predicates() {
    assert!(BigRational::zero().is_zero());
    assert!(z(3).is_positive());
    assert!(z(-3).is_negative());
    assert!(same(&z(-3).neg(), &z(3)));
    assert!(same(&z(-3).abs(), &z(3)));
    assert!(same(&BigRational::one(), &z(1)));
}

#[test]
fn vector_operations() {
    let a = OwnedBigVector::new_from_numbers(vec![z(1), z(2), z(3)]);
    let b = OwnedBigVector::new_from_numbers(vec![z(4), z(5), z(6)]);
    assert!(same(&a.dot(&b), &z(32)));
    assert!(same(&a.magnitude_sq(), &z(14)));
    let s = vec_add(&a, &b);
    assert!(same(s.get(2), &z(9)));
    let d = vec_sub(&a, &b);
    assert!(same(d.get(0), &z(-3)));
    let m = vec_scale(&a, &q(1, 2));
    assert!(same(m.get(1), &z(1)));
    assert!(!a.is_zero());
    assert!(OwnedBigVector::new(4).is_zero());
    let e = OwnedBigVector::basis(3, 1);
    assert!(same(e.get(1), &z(1)) && same(e.get(0), &z(0)));
    let mut c = a.copy();
    c.add_assign(&b);
    c.sub_assign(&b);
    c.mul_assign(&z(2));
    c.div_assign(&z(4));
    assert!(same(c.get(2), &q(3, 2)));
    assert_eq!(c.dimension(), 3);
}

#[test]
fn matrix_basics() {
    let id = BigMatrix::identity(3);
    assert!(mat_is(&id, &[&[1, 0, 0], &[0, 1, 0], &[0, 0, 1]]));
    let mut m = mat(&[&[1, 2], &[3, 4]]);
    assert!(m.is_square());
    m.swap_rows(0, 1);
    assert!(mat_is(&m, &[&[3, 4], &[1, 2]]));
    m.swap_elements(0, 0, 1, 1);
    assert!(mat_is(&m, &[&[2, 4], &[1, 3]]));
    let t = mat(&[&[1, 2], &[3, 4]]).transpose();
    assert!(mat_is(&t, &[&[1, 3], &[2, 4]]));
    let col = mat(&[&[1, 2], &[3, 4]]).get_column(1).to_owned();
    assert!(same(col.get(0), &z(2)) && same(col.get(1), &z(4)));
}

#[test]
fn matrix_products() {
    let a = mat(&[&[1, 2], &[3, 4]]);
    let b = mat(&[&[5, 6], &[7, 8]]);
    assert!(mat_is(&a.mul_matrix(&b), &[&[19, 22], &[43, 50]]));
    assert!(mat_is(&a.add(&b), &[&[6, 8], &[10, 12]]));
    assert!(mat_is(&a.sub(&b), &[&[-4, -4], &[-4, -4]]));
    let v = OwnedBigVector::new_from_numbers(vec![z(1), z(1)]);
    let p = a.mul_vector(&v);
    assert!(same(p.get(0), &z(3)) && same(p.get(1), &z(7)));
    assert!(a.equals(&a.copy()));
    assert!(!a.equals(&b));
}

#[test]
fn matrix_row_operations_and_shrinking() {
    let mut m = mat(&[&[1, 2, 3], &[4, 5, 6], &[7, 8, 9]]);
    let r = OwnedBigVector::new_from_numbers(vec![z(1), z(1), z(1)]);
    m.set_row(0, r);
    assert!(mat_is(&m, &[&[1, 1, 1], &[4, 5, 6], &[7, 8, 9]]));
    m.shink(1, 1, 2, 2);
    assert!(mat_is(&m, &[&[5, 6], &[8, 9]]));
}

#[test]
fn gauss_jordan_full_rank() {
    let mut m = mat(&[&[2, 4], &[1, 3]]);
    let pivots = reduce_matrix(&mut m);
    assert_eq!(pivots, vec![0, 1]);
    assert!(mat_is(&m, &[&[1, 0], &[0, 1]]));
}

#[test]
fn gauss_jordan_dependent_rows() {
    let mut m = mat(&[&[1, 2], &[2, 4]]);
    let pivots = reduce_matrix(&mut m);
    assert_eq!(pivots, vec![0, -1]);
    assert!(mat_is(&m, &[&[1, 2], &[0, 0]]));
}

#[test]
fn gauss_jordan_reaches_reduced_echelon_form() {
    let mut m = mat(&[&[1, 2, 1], &[2, 4, 3]]);
    let pivots = reduce_matrix(&mut m);
    assert_eq!(pivots, vec![0, -1, 1]);
    assert!(mat_is(&m, &[&[1, 2, 0], &[0, 0, 1]]));
}

#[test]
fn gauss_jordan_others_follow_and_action_skips() {
    let mut m = mat(&[&[2, 0], &[0, 4]]);
    let mut others = vec![mat(&[&[2], &[8]])];
    let pivots = reduce(&mut m, &mut others, |_c: usize, _r: &Vec<i32>| true);
    assert_eq!(pivots, vec![0, 1]);
    assert!(mat_is(&others[0], &[&[1], &[2]]));
    let mut n = mat(&[&[1, 1], &[1, 2]]);
    let skipped = reduce_with_action(&mut n, |c: usize, _r: &Vec<i32>| c < 1);
    assert_eq!(skipped, vec![0, -1]);
    assert!(mat_is(&n, &[&[1, 1], &[0, 1]]));
}

#[test]
fn inverse_of_small_matrices() {
    let inv = inverse(&mat(&[&[2, 1], &[1, 1]]));
    assert!(mat_is(&inv, &[&[1, -1], &[-1, 2]]));
    let swap = inverse(&mat(&[&[0, 1], &[1, 0]]));
    assert!(mat_is(&swap, &[&[0, 1], &[1, 0]]));
    let diag = inverse(&mat(&[&[2, 0, 0], &[0, 4, 0], &[0, 0, 5]]));
    assert!(same(diag.get(1, 1), &q(1, 4)) && same(diag.get(2, 2), &q(1, 5)) && same(diag.get(0, 1), &z(0)));
}

#[test]
fn lll_reduces_small_bases() {
    let r = lll::reduce(mat(&[&[1, 1], &[1, 2]]));
    assert!(mat_is(&r, &[&[-1, 0], &[0, 1]]));
    let s = lll::reduce(mat(&[&[4, 1], &[8, 3]]));
    assert!(mat_is(&s, &[&[0, 1], &[4, 0]]));
}

#[test]
fn lll_drops_dependent_rows() {
    let r = lll::reduce(mat(&[&[2, 0], &[0, 3], &[4, 6]]));
    assert!(mat_is(&r, &[&[2, 0], &[0, 3]]));
}

#[test]
fn optimize_over_a_box() {
    let mut builder = OptimizeBuilder::of_size(2);
    builder.with_lower_bound(0, z(0));
    builder.with_upper_bound(0, z(3));
    builder.with_lower_bound(1, z(0));
    builder.with_upper_bound(1, z(5));
    let problem = builder.build().expect("the box has a tableau");
    let gradient = OwnedBigVector::new_from_numbers(vec![z(1), z(1)]);
    let min = problem.copy().minimize(&gradient.as_view()).expect("bounded");
    let max = problem.copy().maximize(&gradient.as_view()).expect("bounded");
    assert!(same(&min, &z(0)));
    assert!(same(&max, &z(8)));
    let g2 = OwnedBigVector::new_from_numbers(vec![z(1), z(-2)]);
    let min2 = problem.copy().minimize(&g2.as_view()).expect("bounded");
    assert!(same(&min2, &z(-10)));
}

#[test]
fn optimize_ends_at_an_optimal_tableau() {
    let mut builder = OptimizeBuilder::of_size(2);
    builder.with_lower_bound(0, z(-1));
    builder.with_upper_bound(0, z(4));
    builder.with_lower_bound(1, z(2));
    builder.with_upper_bound(1, z(7));
    let problem = builder.build().expect("the box has a tableau");
    let gradient = OwnedBigVector::new_from_numbers(vec![z(3), z(-1)]);
    let mut low = problem.copy();
    let min = low.minimize(&gradient.as_view()).expect("bounded");
    assert!(same(&min, &z(-10)));
    assert!(same(&min, low.table.get(low.rows_m1, low.cols_m1)));
    for c in 0..low.cols_m1 {
        assert!(!low.table.get(low.rows_m1, c).is_positive());
    }
    let mut high = problem.copy();
    let max = high.maximize(&gradient.as_view()).expect("bounded");
    assert!(same(&max, &z(10)));
    assert!(same(&max, &high.table.get(high.rows_m1, high.cols_m1).neg()));
    for c in 0..high.cols_m1 {
        assert!(!high.table.get(high.rows_m1, c).is_positive());
    }
}

#[test]
fn simplex_keeps_the_basic_solution_feasible() {
    let mut builder = OptimizeBuilder::of_size(2);
    builder.with_lower_bound(0, z(-3));
    builder.with_upper_bound(0, z(5));
    builder.with_lower_bound(1, z(1));
    builder.with_upper_bound(1, z(2));
    let problem = builder.build().expect("the box has a tableau");
    for r in 0..problem.rows_m1 {
        assert!(!problem.table.get(r, problem.cols_m1).is_negative());
    }
    let gradient = OwnedBigVector::new_from_numbers(vec![z(1), z(2)]);
    let mut low = problem.copy();
    let min = low.minimize(&gradient.as_view()).expect("bounded");
    assert!(same(&min, &z(-1)));
    for r in 0..low.rows_m1 {
        assert!(!low.table.get(r, low.cols_m1).is_negative());
    }
}
