//! The inverse of a square matrix, through an LU decomposition with partial pivoting.
use crate::math::component::arith::{rat_div, rat_lt, rat_mul, rat_sub};
use crate::math::component::big_matrix::{lemma_entry_wf, lemma_mat_index, BigMatrix};
use crate::math::component::big_vector::{all_q_wf, OwnedBigVector, Vector};
use crate::math::component::rational::{
    lemma_q_div_cong, lemma_q_eq_trans, lemma_q_ops_wf, lemma_q_sub_cong, lemma_q_sub_zero, q_div, q_dot, q_eq,
    q_int, q_is_zero, q_lt, q_mul, q_sub, q_wf, wf_rat, BigRational, Q,
};
use vstd::prelude::*;

verus! {

/// `m` is square and only the zero vector has a zero image: `m x = 0` implies `x = 0`.
pub open spec fn nonsingular(m: &BigMatrix) -> bool {
    &&& m.row_count == m.column_count
    &&& forall|x: Seq<Q>|
        #![trigger all_q_wf(x)]
        x.len() == m.column_count && all_q_wf(x) && (forall|r: int|
            0 <= r < m.row_count ==> q_is_zero(#[trigger] q_dot(m.row_values(r), x, m.column_count as nat)))
            ==> forall|c: int| 0 <= c < x.len() ==> q_is_zero(#[trigger] x[c])
}

/// `m` is square, zero off its diagonal and nonzero on it.
pub open spec fn invertible_diagonal(m: &BigMatrix) -> bool {
    &&& m.row_count == m.column_count
    &&& forall|r: int, c: int| 0 <= r < m.row_count && 0 <= c < m.column_count && r != c ==> (#[trigger] m.entry(r, c)).n == 0
    &&& forall|r: int| 0 <= r < m.row_count ==> (#[trigger] m.entry(r, r)).n != 0
}

/// The identity's entry at `r`, `c`.
pub open spec fn delta(r: int, c: int) -> Q {
    q_int(if r == c { 1 } else { 0 })
}

/// `x - z * y` equals `x` where `z` is zero.
proof fn lemma_sub_zero_product(v: Q, x: Q, z: Q, y: Q)
    requires
        q_wf(x),
        q_wf(z),
        q_wf(y),
        z.n == 0,
        q_eq(v, q_sub(x, q_mul(z, y))),
    ensures
        q_eq(v, x),
{
    let zy = q_mul(z, y);
    assert(zy.n == 0) by (nonlinear_arith)
        requires
            z.n == 0,
            zy.n == z.n * y.n,
    ;
    lemma_q_ops_wf(z, y);
    lemma_q_sub_zero(x, zy);
    lemma_q_ops_wf(x, zy);
    lemma_q_eq_trans(v, q_sub(x, zy), x);
}

/// A substitution step `inv[row][dcol] - m[row][col] * inv[col][dcol]` off the diagonal of a
/// diagonal matrix leaves the entry as it was.
proof fn lemma_off_diagonal_step(m: &BigMatrix, matrix: &BigMatrix, inv: &BigMatrix, row: int, col: int, dcol: int, prod: Q, v: Q)
    requires
        m.wf(),
        matrix.wf(),
        inv.wf(),
        invertible_diagonal(matrix),
        m.row_count == matrix.row_count,
        m.column_count == matrix.row_count,
        inv.row_count == matrix.row_count,
        inv.column_count == matrix.row_count,
        0 <= row < matrix.row_count,
        0 <= col < matrix.row_count,
        0 <= dcol < matrix.row_count,
        row != col,
        q_eq(m.entry(row, col), matrix.entry(row, col)),
        q_wf(prod),
        q_eq(prod, q_mul(m.entry(row, col), inv.entry(col, dcol))),
        q_eq(v, q_sub(inv.entry(row, dcol), prod)),
    ensures
        q_eq(v, inv.entry(row, dcol)),
{
    let x = inv.entry(row, dcol);
    let z = m.entry(row, col);
    let y = inv.entry(col, dcol);
    lemma_entry_wf(inv, row, dcol);
    lemma_entry_wf(inv, col, dcol);
    lemma_entry_wf(m, row, col);
    lemma_entry_wf(matrix, row, col);
    lemma_eq_zero(z, matrix.entry(row, col));
    lemma_q_sub_cong(x, x, prod, q_mul(z, y));
    lemma_q_ops_wf(x, prod);
    lemma_q_eq_trans(v, q_sub(x, prod), q_sub(x, q_mul(z, y)));
    lemma_sub_zero_product(v, x, z, y);
}

/// Two rationals with zero numerators are equal.
proof fn lemma_zeros_eq(a: Q, b: Q)
    requires
        a.n == 0,
        b.n == 0,
    ensures
        q_eq(a, b),
{
}

/// A rational equal to one with a zero numerator has a zero numerator.
proof fn lemma_eq_zero(a: Q, b: Q)
    requires
        q_eq(a, b),
        q_wf(a),
        q_wf(b),
        b.n == 0,
    ensures
        a.n == 0,
{
    crate::math::component::rational::lemma_q_eq_zero_one(a, b);
}

/// What [inverse] states of its result `inv` for `matrix`: a square matrix of the same size
/// which, where `matrix` is diagonal with no zero on the diagonal, holds the reciprocals of
/// that diagonal.
pub open spec fn inverse_of(matrix: BigMatrix, inv: BigMatrix) -> bool {
    &&& inv.wf()
    &&& inv.row_count == matrix.row_count
    &&& inv.column_count == matrix.row_count
    &&& invertible_diagonal(&matrix) ==> forall|r: int, c: int|
        0 <= r < matrix.row_count && 0 <= c < matrix.row_count ==> q_eq(
            #[trigger] inv.entry(r, c),
            q_div(delta(r, c), matrix.entry(r, r)),
        )
}

/// The inverse of a nonsingular square matrix: decomposes `P m = L U` by Gaussian
/// elimination with partial pivoting (the largest absolute value in the column), then solves
/// `L U x = P e` for each unit vector `e` by forward and back substitution.
pub fn inverse(matrix: &BigMatrix) -> (inv: BigMatrix)
    requires
        matrix.wf(),
        nonsingular(matrix),
    ensures
        inv.wf(),
        inv.row_count == matrix.row_count,
        inv.column_count == matrix.row_count,
        invertible_diagonal(matrix) ==> forall|r: int, c: int|
            0 <= r < matrix.row_count && 0 <= c < matrix.row_count ==> q_eq(
                #[trigger] inv.entry(r, c),
                q_div(delta(r, c), matrix.entry(r, r)),
            ),
{
    let ghost dg = invertible_diagonal(matrix);
    let mut m = matrix.copy();
    let size = m.row_count;
    proof {
        assert forall|r: int, c: int| 0 <= r < size && 0 <= c < size implies #[trigger] m.entry(r, c) == matrix.entry(r, c) by {
            lemma_mat_index(size as int, size as int, r, c);
            assert(m.values()[c + size * r] == m.entry(r, c));
            assert(matrix.values()[c + size * r] == matrix.entry(r, c));
        }
    }
    let mut p = OwnedBigVector::new(size);
    let mut inv = BigMatrix::identity(size);

    // Decomposition
    let mut i: usize = 0;
    while i < size
        invariant
            m.wf(),
            m.row_count == size,
            m.column_count == size,
            inv.wf(),
            inv.row_count == size,
            inv.column_count == size,
            p.wf_vec(),
            p.dimension == size,
            size == matrix.row_count,
            i <= size,
            forall|k: int| 0 <= k < i ==> (#[trigger] m.entry(k, k)).n != 0,
            matrix.wf(),
            dg == invertible_diagonal(matrix),
            size == matrix.row_count,
            dg ==> forall|r: int, c: int| 0 <= r < size && 0 <= c < size ==> q_eq(#[trigger] m.entry(r, c), matrix.entry(r, c)),
            dg ==> forall|r: int, c: int| 0 <= r < size && 0 <= c < size ==> #[trigger] inv.entry(r, c) == delta(r, c),
        decreases size - i,
    {
        let mut pivot = size;
        let mut biggest_number = BigRational::zero();
        let mut row = i;
        while row < size
            invariant
                m.wf(),
                m.row_count == size,
                m.column_count == size,
                i <= row <= size,
                i < size,
                wf_rat(biggest_number),
                biggest_number@.n >= 0,
                pivot == size || (i <= pivot < size && m.entry(pivot as int, i as int).n != 0),
                pivot == size ==> biggest_number@.n == 0,
                matrix.wf(),
                dg == invertible_diagonal(matrix),
                size == matrix.row_count,
                dg ==> forall|r: int, c: int| 0 <= r < size && 0 <= c < size ==> q_eq(#[trigger] m.entry(r, c), matrix.entry(r, c)),
                dg && row <= i ==> pivot == size,
                dg && row > i ==> pivot == i,
            decreases size - row,
        {
            proof {
                lemma_mat_index(size as int, size as int, row as int, i as int);
                if dg {
                    lemma_entry_wf(&m, row as int, i as int);
                    lemma_entry_wf(matrix, row as int, i as int);
                    if row == i {
                        assert(q_eq(m.entry(i as int, i as int), matrix.entry(i as int, i as int)));
                        crate::math::component::rational::lemma_q_eq_zero_one(m.entry(i as int, i as int), matrix.entry(i as int, i as int));
                    } else {
                        lemma_eq_zero(m.entry(row as int, i as int), matrix.entry(row as int, i as int));
                    }
                }
            }
            let d = m.get(row, i).abs();
            proof {
                if dg {
                    let b = biggest_number@;
                    if row == i {
                        assert(q_lt(b, d@)) by (nonlinear_arith)
                            requires
                                b.n == 0,
                                d@.n > 0,
                                b.d > 0,
                        ;
                    } else {
                        assert(!q_lt(b, d@)) by (nonlinear_arith)
                            requires
                                d@.n == 0,
                                b.n >= 0,
                                d@.d > 0,
                        ;
                    }
                }
            }
            if rat_lt(&biggest_number, &d) {
                proof {
                    let b = biggest_number@;
                    assert(d@.n > 0) by (nonlinear_arith)
                        requires
                            b.n * d@.d < d@.n * b.d,
                            b.n >= 0,
                            b.d > 0,
                            d@.d > 0,
                    ;
                }
                biggest_number = d;
                pivot = row;
            }
            row = row + 1;
        }
        if pivot == size {
            // no nonzero entry below the diagonal: the matrix is singular
            return inv;
        }
        proof {
            assert(pivot < size);
        }
        p.set(i, BigRational::from_i64(pivot as i64));
        inv.swap_rows(i, pivot);
        if pivot != i {
            m.swap_rows(i, pivot);
        }
        let mut r = i + 1;
        while r < size
            invariant
                m.wf(),
                m.row_count == size,
                m.column_count == size,
                i < r <= size,
                forall|k: int| 0 <= k <= i ==> (#[trigger] m.entry(k, k)).n != 0,
                matrix.wf(),
                dg == invertible_diagonal(matrix),
                size == matrix.row_count,
                dg ==> forall|rr: int, c: int| 0 <= rr < size && 0 <= c < size ==> q_eq(#[trigger] m.entry(rr, c), matrix.entry(rr, c)),
            decreases size - r,
        {
            proof {
                lemma_mat_index(size as int, size as int, r as int, i as int);
                lemma_mat_index(size as int, size as int, i as int, i as int);
            }
            let q = rat_div(m.get(r, i), m.get(i, i));
            proof {
                if dg {
                    lemma_entry_wf(&m, r as int, i as int);
                    lemma_entry_wf(matrix, r as int, i as int);
                    lemma_eq_zero(m.entry(r as int, i as int), matrix.entry(r as int, i as int));
                    let qd = q_div(m.entry(r as int, i as int), m.entry(i as int, i as int));
                    assert(qd.n == 0) by (nonlinear_arith)
                        requires
                            m.entry(r as int, i as int).n == 0,
                            qd.n == m.entry(r as int, i as int).n * m.entry(i as int, i as int).d
                                || qd.n == -(m.entry(r as int, i as int).n * m.entry(i as int, i as int).d),
                    ;
                    lemma_entry_wf(&m, i as int, i as int);
                    lemma_q_ops_wf(m.entry(r as int, i as int), m.entry(i as int, i as int));
                    lemma_eq_zero(q@, qd);
                    lemma_zeros_eq(q@, matrix.entry(r as int, i as int));
                }
            }
            m.set(r, i, q);
            r = r + 1;
        }
        let mut r = i + 1;
        while r < size
            invariant
                m.wf(),
                m.row_count == size,
                m.column_count == size,
                i < r <= size,
                forall|k: int| 0 <= k <= i ==> (#[trigger] m.entry(k, k)).n != 0,
                matrix.wf(),
                dg == invertible_diagonal(matrix),
                size == matrix.row_count,
                dg ==> forall|rr: int, c: int| 0 <= rr < size && 0 <= c < size ==> q_eq(#[trigger] m.entry(rr, c), matrix.entry(rr, c)),
            decreases size - r,
        {
            let mut col = i + 1;
            while col < size
                invariant
                    m.wf(),
                    m.row_count == size,
                    m.column_count == size,
                    i < r < size,
                    i < col <= size,
                    forall|k: int| 0 <= k <= i ==> (#[trigger] m.entry(k, k)).n != 0,
                    matrix.wf(),
                    dg == invertible_diagonal(matrix),
                    size == matrix.row_count,
                    dg ==> forall|rr: int, c: int| 0 <= rr < size && 0 <= c < size ==> q_eq(#[trigger] m.entry(rr, c), matrix.entry(rr, c)),
                decreases size - col,
            {
                proof {
                    lemma_mat_index(size as int, size as int, r as int, col as int);
                    lemma_mat_index(size as int, size as int, r as int, i as int);
                    lemma_mat_index(size as int, size as int, i as int, col as int);
                }
                let prod = rat_mul(m.get(r, i), m.get(i, col));
                let v = rat_sub(m.get(r, col), &prod);
                proof {
                    if dg {
                        let x = m.entry(r as int, col as int);
                        let z = m.entry(r as int, i as int);
                        let y = m.entry(i as int, col as int);
                        lemma_entry_wf(&m, r as int, col as int);
                        lemma_entry_wf(&m, r as int, i as int);
                        lemma_entry_wf(&m, i as int, col as int);
                        lemma_entry_wf(matrix, r as int, i as int);
                        lemma_entry_wf(matrix, r as int, col as int);
                        lemma_eq_zero(z, matrix.entry(r as int, i as int));
                        lemma_q_sub_cong(x, x, prod@, q_mul(z, y));
                        lemma_q_ops_wf(x, prod@);
                        lemma_q_eq_trans(v@, q_sub(x, prod@), q_sub(x, q_mul(z, y)));
                        lemma_sub_zero_product(v@, x, z, y);
                        lemma_q_eq_trans(v@, x, matrix.entry(r as int, col as int));
                    }
                }
                m.set(r, col, v);
                col = col + 1;
            }
            r = r + 1;
        }
        i = i + 1;
    }

    // Inverse
    let mut dcol: usize = 0;
    while dcol < size
        invariant
            m.wf(),
            m.row_count == size,
            m.column_count == size,
            inv.wf(),
            inv.row_count == size,
            inv.column_count == size,
            dcol <= size,
            forall|k: int| 0 <= k < size ==> (#[trigger] m.entry(k, k)).n != 0,
            matrix.wf(),
            size == matrix.row_count,
            dg == invertible_diagonal(matrix),
            dg ==> forall|r: int, c: int| 0 <= r < size && 0 <= c < size ==> q_eq(#[trigger] m.entry(r, c), matrix.entry(r, c)),
            dg ==> forall|r: int, c: int| 0 <= r < size && 0 <= c < size ==> q_eq(#[trigger] inv.entry(r, c), delta(r, c)),
        decreases size - dcol,
    {
        let mut row: usize = 0;
        while row < size
            invariant
                m.wf(),
                m.row_count == size,
                m.column_count == size,
                inv.wf(),
                inv.row_count == size,
                inv.column_count == size,
                dcol < size,
                row <= size,
                forall|k: int| 0 <= k < size ==> (#[trigger] m.entry(k, k)).n != 0,
                matrix.wf(),
                size == matrix.row_count,
                dg == invertible_diagonal(matrix),
                dg ==> forall|r: int, c: int| 0 <= r < size && 0 <= c < size ==> q_eq(#[trigger] m.entry(r, c), matrix.entry(r, c)),
                dg ==> forall|r: int, c: int| 0 <= r < size && 0 <= c < size ==> q_eq(#[trigger] inv.entry(r, c), delta(r, c)),
            decreases size - row,
        {
            let mut col: usize = 0;
            while col < row
                invariant
                    m.wf(),
                    m.row_count == size,
                    m.column_count == size,
                    inv.wf(),
                    inv.row_count == size,
                    inv.column_count == size,
                    dcol < size,
                    row < size,
                    col <= row,
                    forall|k: int| 0 <= k < size ==> (#[trigger] m.entry(k, k)).n != 0,
                    matrix.wf(),
                    size == matrix.row_count,
                    dg == invertible_diagonal(matrix),
                    dg ==> forall|r: int, c: int| 0 <= r < size && 0 <= c < size ==> q_eq(#[trigger] m.entry(r, c), matrix.entry(r, c)),
                    dg ==> forall|r: int, c: int| 0 <= r < size && 0 <= c < size ==> q_eq(#[trigger] inv.entry(r, c), delta(r, c)),
                decreases row - col,
            {
                proof {
                    lemma_mat_index(size as int, size as int, row as int, dcol as int);
                    lemma_mat_index(size as int, size as int, row as int, col as int);
                    lemma_mat_index(size as int, size as int, col as int, dcol as int);
                }
                let prod = rat_mul(m.get(row, col), inv.get(col, dcol));
                let v = rat_sub(inv.get(row, dcol), &prod);
                proof {
                    if dg {
                        lemma_off_diagonal_step(&m, matrix, &inv, row as int, col as int, dcol as int, prod@, v@);
                        lemma_q_eq_trans(v@, inv.entry(row as int, dcol as int), delta(row as int, dcol as int));
                    }
                }
                inv.set(row, dcol, v);
                col = col + 1;
            }
            row = row + 1;
        }
        dcol = dcol + 1;
    }

    let mut dcol: usize = 0;
    while dcol < size
        invariant
            m.wf(),
            m.row_count == size,
            m.column_count == size,
            inv.wf(),
            inv.row_count == size,
            inv.column_count == size,
            dcol <= size,
            forall|k: int| 0 <= k < size ==> (#[trigger] m.entry(k, k)).n != 0,
            matrix.wf(),
            size == matrix.row_count,
            dg == invertible_diagonal(matrix),
            dg ==> forall|r: int, c: int| 0 <= r < size && 0 <= c < size ==> q_eq(#[trigger] m.entry(r, c), matrix.entry(r, c)),
            dg ==> forall|r: int, c: int|
                0 <= r < size && 0 <= c < size ==> q_eq(
                    #[trigger] inv.entry(r, c),
                    if c < dcol { q_div(delta(r, c), matrix.entry(r, r)) } else { delta(r, c) },
                ),
        decreases size - dcol,
    {
        let mut row: usize = size;
        while row > 0
            invariant
                m.wf(),
                m.row_count == size,
                m.column_count == size,
                inv.wf(),
                inv.row_count == size,
                inv.column_count == size,
                dcol < size,
                row <= size,
                forall|k: int| 0 <= k < size ==> (#[trigger] m.entry(k, k)).n != 0,
                matrix.wf(),
                size == matrix.row_count,
                dg == invertible_diagonal(matrix),
                dg ==> forall|r: int, c: int| 0 <= r < size && 0 <= c < size ==> q_eq(#[trigger] m.entry(r, c), matrix.entry(r, c)),
                dg ==> forall|r: int, c: int|
                    0 <= r < size && 0 <= c < size ==> q_eq(
                        #[trigger] inv.entry(r, c),
                        if c < dcol || (c == dcol && r >= row) { q_div(delta(r, c), matrix.entry(r, r)) } else { delta(r, c) },
                    ),
            decreases row,
        {
            row = row - 1;
            let mut col: usize = size;
            while col > row + 1
                invariant
                    m.wf(),
                    m.row_count == size,
                    m.column_count == size,
                    inv.wf(),
                    inv.row_count == size,
                    inv.column_count == size,
                    dcol < size,
                    row < size,
                    row + 1 <= col <= size,
                    forall|k: int| 0 <= k < size ==> (#[trigger] m.entry(k, k)).n != 0,
                    matrix.wf(),
                    size == matrix.row_count,
                    dg == invertible_diagonal(matrix),
                    dg ==> forall|r: int, c: int| 0 <= r < size && 0 <= c < size ==> q_eq(#[trigger] m.entry(r, c), matrix.entry(r, c)),
                    dg ==> forall|r: int, c: int|
                        0 <= r < size && 0 <= c < size ==> q_eq(
                            #[trigger] inv.entry(r, c),
                            if c < dcol || (c == dcol && r > row) { q_div(delta(r, c), matrix.entry(r, r)) } else { delta(r, c) },
                        ),
                decreases col,
            {
                col = col - 1;
                proof {
                    lemma_mat_index(size as int, size as int, row as int, dcol as int);
                    lemma_mat_index(size as int, size as int, row as int, col as int);
                    lemma_mat_index(size as int, size as int, col as int, dcol as int);
                }
                let prod = rat_mul(m.get(row, col), inv.get(col, dcol));
                let v = rat_sub(inv.get(row, dcol), &prod);
                proof {
                    if dg {
                        lemma_off_diagonal_step(&m, matrix, &inv, row as int, col as int, dcol as int, prod@, v@);
                        lemma_q_eq_trans(v@, inv.entry(row as int, dcol as int), delta(row as int, dcol as int));
                    }
                }
                inv.set(row, dcol, v);
            }
            proof {
                lemma_mat_index(size as int, size as int, row as int, dcol as int);
                lemma_mat_index(size as int, size as int, row as int, row as int);
            }
            let v = rat_div(inv.get(row, dcol), m.get(row, row));
            proof {
                if dg {
                    let x = inv.entry(row as int, dcol as int);
                    let y = m.entry(row as int, row as int);
                    let d = matrix.entry(row as int, row as int);
                    let e = delta(row as int, dcol as int);
                    lemma_entry_wf(&inv, row as int, dcol as int);
                    lemma_entry_wf(&m, row as int, row as int);
                    lemma_entry_wf(matrix, row as int, row as int);
                    lemma_q_div_cong(x, e, y, d);
                    lemma_q_ops_wf(x, y);
                    lemma_q_eq_trans(v@, q_div(x, y), q_div(e, d));
                }
            }
            inv.set(row, dcol, v);
        }
        dcol = dcol + 1;
    }

    inv
}


/// A dot product whose first factor has zero numerators below `n` has a zero numerator.
proof fn lemma_dot_all_zero(a: Seq<Q>, b: Seq<Q>, n: nat)
    requires
        n <= a.len(),
        n <= b.len(),
        forall|k: int| 0 <= k < n ==> (#[trigger] a[k]).n == 0,
    ensures
        q_dot(a, b, n).n == 0,
    decreases n,
{
    if n > 0 {
        lemma_dot_all_zero(a, b, (n - 1) as nat);
        let prev = q_dot(a, b, (n - 1) as nat);
        let t = crate::math::component::rational::q_mul(a[n - 1], b[n - 1]);
        assert(t.n == 0) by (nonlinear_arith)
            requires
                a[n - 1].n == 0,
                t.n == a[n - 1].n * b[n - 1].n,
        ;
        assert(prev.n * t.d + t.n * prev.d == 0) by (nonlinear_arith)
            requires
                prev.n == 0,
                t.n == 0,
        ;
    }
}

/// A dot product whose first factor is zero but at `r` is zero exactly when its `r`-th
/// product is.
proof fn lemma_dot_single(a: Seq<Q>, b: Seq<Q>, n: nat, r: int)
    requires
        n <= a.len(),
        n <= b.len(),
        all_q_wf(a),
        all_q_wf(b),
        0 <= r < n,
        forall|k: int| 0 <= k < n && k != r ==> (#[trigger] a[k]).n == 0,
    ensures
        (q_dot(a, b, n).n == 0) == (a[r].n * b[r].n == 0),
    decreases n,
{
    let prev = q_dot(a, b, (n - 1) as nat);
    let t = crate::math::component::rational::q_mul(a[n - 1], b[n - 1]);
    crate::math::component::rational::lemma_q_dot_wf(a, b, (n - 1) as nat);
    assert(q_wf(a[n - 1]) && q_wf(b[n - 1]));
    assert(t.d > 0) by (nonlinear_arith)
        requires
            a[n - 1].d > 0,
            b[n - 1].d > 0,
            t.d == a[n - 1].d * b[n - 1].d,
    ;
    if n - 1 == r {
        lemma_dot_all_zero(a, b, (n - 1) as nat);
        assert((prev.n * t.d + t.n * prev.d == 0) == (t.n == 0)) by (nonlinear_arith)
            requires
                prev.n == 0,
                prev.d > 0,
        ;
    } else {
        lemma_dot_single(a, b, (n - 1) as nat, r);
        assert(t.n == 0) by (nonlinear_arith)
            requires
                a[n - 1].n == 0,
                t.n == a[n - 1].n * b[n - 1].n,
        ;
        assert((prev.n * t.d + t.n * prev.d == 0) == (prev.n == 0)) by (nonlinear_arith)
            requires
                t.n == 0,
                t.d > 0,
        ;
    }
}

/// A square matrix that is zero off its diagonal and nonzero on it is nonsingular.
pub proof fn lemma_diagonal_nonsingular(m: &BigMatrix)
    requires
        m.wf(),
        m.row_count == m.column_count,
        forall|r: int, c: int| 0 <= r < m.row_count && 0 <= c < m.column_count && r != c ==> (#[trigger] m.entry(r, c)).n == 0,
        forall|r: int| 0 <= r < m.row_count ==> (#[trigger] m.entry(r, r)).n != 0,
    ensures
        nonsingular(m),
{
    let n = m.column_count as nat;
    assert forall|x: Seq<Q>|
        #![trigger all_q_wf(x)]
        x.len() == m.column_count && all_q_wf(x) && (forall|r: int|
            0 <= r < m.row_count ==> q_is_zero(#[trigger] q_dot(m.row_values(r), x, m.column_count as nat)))
        implies forall|c: int| 0 <= c < x.len() ==> q_is_zero(#[trigger] x[c]) by {
        assert forall|c: int| 0 <= c < x.len() implies q_is_zero(#[trigger] x[c]) by {
            let row = m.row_values(c);
            assert forall|k: int| 0 <= k < row.len() implies q_wf(#[trigger] row[k]) by {
                lemma_mat_index(m.row_count as int, m.column_count as int, c, k);
                assert(wf_rat(m.numbers@[k + m.column_count * c]));
            }
            assert forall|k: int| 0 <= k < n && k != c implies (#[trigger] row[k]).n == 0 by {
                assert(row[k] == m.entry(c, k));
            }
            lemma_dot_single(row, x, n, c);
            assert(q_is_zero(q_dot(m.row_values(c), x, n)));
            assert(row[c] == m.entry(c, c));
            vstd::arithmetic::mul::lemma_mul_nonzero(row[c].n, x[c].n);
        }
    }
}

} // verus!
