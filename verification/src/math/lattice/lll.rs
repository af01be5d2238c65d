//! Lattice basis reduction by the Lenstra-Lenstra-Lovasz algorithm, in exact rationals.
use crate::math::component::arith::{rat_add, rat_div, rat_floor, rat_lt, rat_mul, rat_sub};
use crate::math::component::big_matrix::{lemma_entry_wf, lemma_mat_index, BigMatrix};
use crate::math::component::big_vector::{vec_add, vec_scale, vec_sub, Dot, IsZero, MagnitudeSq, OwnedBigVector, Vector};
use crate::math::component::rational::{
    lemma_q_add_cong, lemma_q_div_cong, lemma_q_eq_trans, lemma_q_eq_zero_one, lemma_q_floor_cong,
    lemma_q_lt_cong, lemma_q_mul_cong, lemma_q_ops_wf, lemma_q_sub_cong, q_add, q_div, q_dot, q_eq, q_floor, q_int, q_lt, q_mul, q_sub, wf_rat,
    BigRational, Q,
};
use crate::math::lattice::span::{
    identity_weights, in_lattice, lemma_rows_combine_identity, lemma_rows_combine_sub,
    lemma_rows_combine_swap, lemma_rows_in_lattice, rows_combine, weights_sub,
};
use vstd::prelude::*;

verus! {

/// The parameters of the reduction.
pub struct Params {
    /// The last stage to reduce up to, or `-1` for all rows.
    pub max_stage: i32,
    /// The Lovasz constant.
    pub delta: BigRational,
}

/// The state of a reduction: the basis being reduced, its Gram-Schmidt orthogonalization,
/// the Gram-Schmidt coefficients, the squared norms of the orthogonal vectors, and the
/// coordinates of the current basis in the starting one.
pub struct LLL {
    nb_rows: usize,
    nb_cols: usize,
    coordinates: BigMatrix,
    base_gso: BigMatrix,
    mu: BigMatrix,
    norms: OwnedBigVector,
    basis: BigMatrix,
    params: Params,
}

/// One half.
pub open spec fn q_half() -> Q {
    Q { n: 1, d: 2 }
}

/// The integer nearest to `x`, halves rounded up: `floor(x + 1/2)`.
pub open spec fn round_half_up(x: Q) -> int {
    q_floor(q_add(x, q_half()))
}

/// Row `i` of `m` less row `j` times `r`.
fn sub_scaled_row(m: &mut BigMatrix, i: usize, j: usize, r: &BigRational)
    requires
        old(m).wf(),
        i < old(m).row_count,
        j < old(m).row_count,
        i != j,
        wf_rat(*r),
    ensures
        final(m).wf(),
        final(m).row_count == old(m).row_count,
        final(m).column_count == old(m).column_count,
        forall|a: int, c: int|
            0 <= a < old(m).row_count && 0 <= c < old(m).column_count && a != i ==> #[trigger] final(m).entry(a, c)
                == old(m).entry(a, c),
        forall|c: int|
            0 <= c < old(m).column_count ==> q_eq(
                #[trigger] final(m).entry(i as int, c),
                q_sub(old(m).entry(i as int, c), q_mul(old(m).entry(j as int, c), r@)),
            ),
{
    let scaled = vec_scale(&m.get_row(j), r);
    let ghost m0 = *m;
    m.row_sub_assign(i, &scaled);
    proof {
        scaled.lemma_values_wf();
        assert forall|c: int| 0 <= c < m0.column_count implies q_eq(
            #[trigger] m.entry(i as int, c),
            q_sub(m0.entry(i as int, c), q_mul(m0.entry(j as int, c), r@)),
        ) by {
            let x = m0.entry(i as int, c);
            let y = scaled.values()[c];
            let z = q_mul(m0.entry(j as int, c), r@);
            lemma_entry_wf(&m0, i as int, c);
            lemma_entry_wf(&m0, j as int, c);
            assert(q_eq(y, z));
            lemma_q_ops_wf(x, y);
            lemma_q_sub_cong(x, x, y, z);
            lemma_q_eq_trans(m.entry(i as int, c), q_sub(x, y), q_sub(x, z));
        }
    }
}

/// Reduces the rows of `lattice` (a basis of the lattice they span) with the
/// Lenstra-Lenstra-Lovasz algorithm, Lovasz constant 99/100, and drops the zero rows that
/// the reduction leaves at the front.
pub fn reduce(lattice: BigMatrix) -> (r: BigMatrix)
    requires
        lattice.wf(),
        1 <= lattice.row_count <= i32::MAX,
        (lattice.row_count + 1) * lattice.row_count <= usize::MAX,
    ensures
        r.wf(),
        r.column_count == lattice.column_count,
        r.row_count <= lattice.row_count,
        forall|i: int| 0 <= i < r.row_count ==> in_lattice(r, i, lattice),
{
    let rows = lattice.row_count;
    let cols = lattice.column_count;
    proof {
        assert(rows * rows <= (rows + 1) * rows) by (nonlinear_arith);
    }
    LLL {
        nb_rows: rows,
        nb_cols: cols,
        base_gso: BigMatrix::new(rows, cols),
        mu: BigMatrix::new(rows, rows),
        norms: OwnedBigVector::new(rows),
        coordinates: BigMatrix::identity(rows),
        basis: lattice,
        params: Params { max_stage: -1, delta: BigRational::from_signeds(99, 100) },
    }.reduce_lll()
}

/// Every entry of row `r` of `m` is zero.
pub open spec fn row_is_zero(m: BigMatrix, r: int) -> bool {
    forall|c: int| 0 <= c < m.column_count ==> (#[trigger] m.entry(r, c)).n == 0
}

/// The number of zero rows among the first `n` rows of `m`.
pub open spec fn zero_rows(m: BigMatrix, n: nat) -> nat
    decreases n,
{
    if n == 0 {
        0
    } else {
        zero_rows(m, (n - 1) as nat) + if row_is_zero(m, n - 1) { 1nat } else { 0nat }
    }
}

proof fn lemma_zero_rows_le(m: BigMatrix, n: nat)
    ensures
        zero_rows(m, n) <= n,
    decreases n,
{
    if n > 0 {
        lemma_zero_rows_le(m, (n - 1) as nat);
    }
}

/// The rows of `m` from `start_row` on and its columns from `start_col` on, as a
/// `rows` by `cols` window: the shape that `shink` needs.
proof fn lemma_window_fits(m: &BigMatrix, start_row: int, start_col: int, rows: int, cols: int)
    requires
        m.wf(),
        0 <= start_row,
        0 <= start_col,
        start_row + rows == m.row_count,
        start_col + cols == m.column_count,
        rows >= 0,
        cols >= 0,
    ensures
        rows * cols <= m.row_count * m.column_count,
        start_row * m.column_count + start_col <= m.row_count * m.column_count + start_col,
        forall|r: int, c: int| 0 <= r < rows && 0 <= c < cols ==>
            #[trigger] (start_row * m.column_count + start_col + m.column_count * r + c) < m.numbers.len(),
{
    let w = m.column_count as int;
    let h = m.row_count as int;
    assert(rows * cols <= h * w) by (nonlinear_arith)
        requires
            0 <= rows <= h,
            0 <= cols <= w,
    ;
    assert(start_row * w <= h * w) by (nonlinear_arith)
        requires
            0 <= start_row <= h,
            w >= 0,
    ;
    assert forall|r: int, c: int| 0 <= r < rows && 0 <= c < cols implies
        #[trigger] (start_row * w + start_col + w * r + c) < m.numbers.len() by {
        lemma_mat_index(h, w, start_row + r, start_col + c);
        assert(start_row * w + w * r == w * (start_row + r)) by (nonlinear_arith);
    }
}

/// The coefficients that a swap at `k` may rewrite: the columns below `k - 1` of rows
/// `k - 1` and `k`, the entry `[k][k - 1]`, and columns `k - 1` and `k` of the rows
/// `k + 1 ..= kmax`.
pub open spec fn swap_touches(r: int, c: int, k: int, kmax: int) -> bool {
    ||| (r == k || r == k - 1) && c < k - 1
    ||| r == k && c == k - 1
    ||| k < r <= kmax && (c == k || c == k - 1)
}

/// Entry `c` of basis row `k` less `mu[k][i]` times orthogonal row `i`, for each `i < j`.
pub open spec fn gso_residual(basis: BigMatrix, gso: BigMatrix, mu: BigMatrix, k: int, j: nat, c: int) -> Q
    decreases j,
{
    if j == 0 {
        basis.entry(k, c)
    } else {
        q_sub(gso_residual(basis, gso, mu, k, (j - 1) as nat, c), q_mul(gso.entry(j - 1, c), mu.entry(k, j - 1)))
    }
}

/// The residual after `j` steps reads only the coefficients `mu[k][i]` with `i < j`.
proof fn lemma_gso_residual_frame(basis: BigMatrix, gso: BigMatrix, mu1: BigMatrix, mu2: BigMatrix, k: int, j: nat, c: int)
    requires
        forall|i: int| 0 <= i < j ==> #[trigger] mu1.entry(k, i) == mu2.entry(k, i),
    ensures
        gso_residual(basis, gso, mu1, k, j, c) == gso_residual(basis, gso, mu2, k, j, c),
    decreases j,
{
    if j > 0 {
        lemma_gso_residual_frame(basis, gso, mu1, mu2, k, (j - 1) as nat, c);
        assert(mu1.entry(k, j - 1) == mu2.entry(k, j - 1));
    }
}

impl LLL {
    /// The matrices and the norms have the shapes of an `nb_rows` by `nb_cols` basis.
    spec fn inv(&self) -> bool {
        &&& self.basis.wf()
        &&& self.basis.row_count == self.nb_rows
        &&& self.basis.column_count == self.nb_cols
        &&& self.base_gso.wf()
        &&& self.base_gso.row_count == self.nb_rows
        &&& self.base_gso.column_count == self.nb_cols
        &&& self.mu.wf()
        &&& self.mu.row_count == self.nb_rows
        &&& self.mu.column_count == self.nb_rows
        &&& self.coordinates.wf()
        &&& self.coordinates.row_count == self.nb_rows
        &&& self.coordinates.column_count == self.nb_rows
        &&& self.norms.wf_vec()
        &&& self.norms.dimension == self.nb_rows
        &&& wf_rat(self.params.delta)
    }

    /// Whether the Lovasz condition fails at `k`:
    /// `norms[k] < norms[k - 1] * (delta - mu[k][k - 1]^2)`.
    fn test_condition(&self, k: usize) -> (r: bool)
        requires
            self.inv(),
            1 <= k < self.nb_rows,
        ensures
            r == q_lt(
                self.norms.values()[k as int],
                q_mul(
                    self.norms.values()[k - 1],
                    q_sub(self.params.delta@, q_mul(self.mu.entry(k as int, k - 1), self.mu.entry(k as int, k - 1))),
                ),
            ),
    {
        proof {
            lemma_mat_index(self.nb_rows as int, self.nb_rows as int, k as int, k - 1);
        }
        let mu_temp = self.mu.get(k, k - 1);
        let square = rat_mul(mu_temp, mu_temp);
        let factor = rat_sub(&self.params.delta, &square);
        let bound = rat_mul(self.norms.get(k - 1), &factor);
        let r = rat_lt(self.norms.get(k), &bound);
        proof {
            let m = mu_temp@;
            let dl = self.params.delta@;
            let n1 = self.norms.values()[k - 1];
            let n0 = self.norms.values()[k as int];
            self.norms.lemma_values_wf();
            lemma_q_ops_wf(m, m);
            lemma_q_ops_wf(dl, square@);
            lemma_q_ops_wf(dl, q_mul(m, m));
            lemma_q_sub_cong(dl, dl, square@, q_mul(m, m));
            lemma_q_eq_trans(factor@, q_sub(dl, square@), q_sub(dl, q_mul(m, m)));
            lemma_q_ops_wf(n1, factor@);
            lemma_q_ops_wf(n1, q_sub(dl, q_mul(m, m)));
            lemma_q_mul_cong(n1, n1, factor@, q_sub(dl, q_mul(m, m)));
            lemma_q_eq_trans(bound@, q_mul(n1, factor@), q_mul(n1, q_sub(dl, q_mul(m, m))));
            lemma_q_lt_cong(n0, n0, bound@, q_mul(n1, q_sub(dl, q_mul(m, m))));
        }
        r
    }

    /// Size reduction of row `i` by row `j`: with `r` the integer nearest to `mu[i][j]`,
    /// subtracts `r` times row `j` from row `i` of the basis and of the coordinates, and
    /// updates the coefficients: `mu[i][j] -= r`, `mu[i][c] -= mu[j][c] * r` for `c < j`.
    /// Nothing changes where `r` is zero.
    fn red(&mut self, i: usize, j: usize)
        requires
            old(self).inv(),
            j < i < old(self).nb_rows,
        ensures
            final(self).inv(),
            final(self).nb_rows == old(self).nb_rows,
            final(self).nb_cols == old(self).nb_cols,
            final(self).base_gso == old(self).base_gso,
            final(self).norms == old(self).norms,
            final(self).params == old(self).params,
            round_half_up(old(self).mu.entry(i as int, j as int)) == 0 ==> final(self).basis == old(self).basis
                && final(self).coordinates == old(self).coordinates && final(self).mu == old(self).mu,
            round_half_up(old(self).mu.entry(i as int, j as int)) != 0 ==> ({
                let r = q_int(round_half_up(old(self).mu.entry(i as int, j as int)));
                &&& forall|a: int, c: int|
                    0 <= a < old(self).nb_rows && 0 <= c < old(self).nb_cols && a != i ==> #[trigger] final(self).basis.entry(a, c)
                        == old(self).basis.entry(a, c)
                &&& forall|c: int|
                    0 <= c < old(self).nb_cols ==> q_eq(
                        #[trigger] final(self).basis.entry(i as int, c),
                        q_sub(old(self).basis.entry(i as int, c), q_mul(old(self).basis.entry(j as int, c), r)),
                    )
                &&& forall|a: int, c: int|
                    0 <= a < old(self).nb_rows && 0 <= c < old(self).nb_rows && a != i ==> #[trigger] final(self).coordinates.entry(a, c)
                        == old(self).coordinates.entry(a, c)
                &&& forall|c: int|
                    0 <= c < old(self).nb_rows ==> q_eq(
                        #[trigger] final(self).coordinates.entry(i as int, c),
                        q_sub(old(self).coordinates.entry(i as int, c), q_mul(old(self).coordinates.entry(j as int, c), r)),
                    )
                &&& q_eq(final(self).mu.entry(i as int, j as int), q_sub(old(self).mu.entry(i as int, j as int), r))
                &&& forall|c: int|
                    0 <= c < j ==> q_eq(
                        #[trigger] final(self).mu.entry(i as int, c),
                        q_sub(old(self).mu.entry(i as int, c), q_mul(old(self).mu.entry(j as int, c), r)),
                    )
                &&& forall|a: int, c: int|
                    0 <= a < old(self).nb_rows && 0 <= c < old(self).nb_rows && !(a == i && c <= j) ==> #[trigger] final(self).mu.entry(a, c)
                        == old(self).mu.entry(a, c)
            }),
    {
        let n = self.nb_rows;
        proof {
            lemma_mat_index(n as int, n as int, i as int, j as int);
        }
        let half = BigRational::from_signeds(1, 2);
        let shifted = rat_add(self.mu.get(i, j), &half);
        let r_int = rat_floor(&shifted);
        proof {
            let m = self.mu.entry(i as int, j as int);
            lemma_entry_wf(&self.mu, i as int, j as int);
            lemma_q_ops_wf(m, q_half());
            lemma_q_floor_cong(shifted@, q_add(m, q_half()));
        }
        if r_int.is_zero() {
            return;
        }
        let r = BigRational::from_integer(r_int);
        let ghost s0 = *self;
        sub_scaled_row(&mut self.basis, i, j, &r);
        sub_scaled_row(&mut self.coordinates, i, j, &r);
        let ghost b1 = self.basis;
        let ghost c1 = self.coordinates;
        let ghost mu0 = self.mu;
        let new_mu = rat_sub(self.mu.get(i, j), &r);
        self.mu.set(i, j, new_mu);
        let mut col: usize = 0;
        while col < j
            invariant
                self.inv(),
                self.nb_rows == n,
                self.nb_cols == s0.nb_cols,
                self.basis == b1,
                self.coordinates == c1,
                self.base_gso == s0.base_gso,
                self.norms == s0.norms,
                self.params == s0.params,
                j < i < n,
                col <= j,
                wf_rat(r),
                mu0.wf(),
                mu0.row_count == n,
                mu0.column_count == n,
                q_eq(self.mu.entry(i as int, j as int), q_sub(mu0.entry(i as int, j as int), r@)),
                forall|c: int|
                    0 <= c < col ==> q_eq(
                        #[trigger] self.mu.entry(i as int, c),
                        q_sub(mu0.entry(i as int, c), q_mul(mu0.entry(j as int, c), r@)),
                    ),
                forall|a: int, c: int|
                    0 <= a < n && 0 <= c < n && !(a == i && (c < col || c == j)) ==> #[trigger] self.mu.entry(a, c)
                        == mu0.entry(a, c),
            decreases j - col,
        {
            proof {
                lemma_mat_index(n as int, n as int, i as int, col as int);
                lemma_mat_index(n as int, n as int, j as int, col as int);
                assert(self.mu.entry(i as int, col as int) == mu0.entry(i as int, col as int));
                assert(self.mu.entry(j as int, col as int) == mu0.entry(j as int, col as int));
            }
            let p = rat_mul(self.mu.get(j, col), &r);
            let v = rat_sub(self.mu.get(i, col), &p);
            let ghost before = self.mu;
            self.mu.set(i, col, v);
            proof {
                let x = mu0.entry(i as int, col as int);
                let y = mu0.entry(j as int, col as int);
                lemma_entry_wf(&mu0, i as int, col as int);
                lemma_entry_wf(&mu0, j as int, col as int);
                lemma_q_ops_wf(y, r@);
                lemma_q_ops_wf(x, p@);
                lemma_q_sub_cong(x, x, p@, q_mul(y, r@));
                lemma_q_eq_trans(v@, q_sub(x, p@), q_sub(x, q_mul(y, r@)));
            }
            col = col + 1;
        }
    }

    /// Gram-Schmidt step for row `k`: for each `j < k`, `mu[k][j]` becomes the dot product of
    /// basis row `k` with orthogonal row `j`, divided by `norms[j]` (zero where that norm is
    /// zero); orthogonal row `k` becomes basis row `k` less `mu[k][j]` times each orthogonal
    /// row `j`, and `norms[k]` its squared norm.
    fn update_gso(&mut self, k: usize)
        requires
            old(self).inv(),
            1 <= k < old(self).nb_rows,
        ensures
            forall|c: int|
                0 <= c < old(self).nb_cols ==> q_eq(
                    #[trigger] final(self).base_gso.entry(k as int, c),
                    gso_residual(old(self).basis, old(self).base_gso, final(self).mu, k as int, k as nat, c),
                ),
            final(self).inv(),
            final(self).nb_rows == old(self).nb_rows,
            final(self).nb_cols == old(self).nb_cols,
            final(self).basis == old(self).basis,
            final(self).coordinates == old(self).coordinates,
            final(self).params == old(self).params,
            forall|j: int|
                0 <= j < k ==> q_eq(
                    #[trigger] final(self).mu.entry(k as int, j),
                    if old(self).norms.values()[j].n == 0 {
                        q_int(0)
                    } else {
                        q_div(
                            q_dot(old(self).basis.row_values(k as int), old(self).base_gso.row_values(j), old(self).nb_cols as nat),
                            old(self).norms.values()[j],
                        )
                    },
                ),
            forall|a: int, c: int|
                0 <= a < old(self).nb_rows && 0 <= c < old(self).nb_rows && !(a == k && c < k) ==> #[trigger] final(self).mu.entry(a, c)
                    == old(self).mu.entry(a, c),
            forall|a: int, c: int|
                0 <= a < old(self).nb_rows && 0 <= c < old(self).nb_cols && a != k ==> #[trigger] final(self).base_gso.entry(a, c)
                    == old(self).base_gso.entry(a, c),
            q_eq(
                final(self).norms.values()[k as int],
                q_dot(final(self).base_gso.row_values(k as int), final(self).base_gso.row_values(k as int), old(self).nb_cols as nat),
            ),
            forall|a: int| 0 <= a < old(self).nb_rows && a != k ==> #[trigger] final(self).norms.values()[a] == old(self).norms.values()[a],
    {
        let n = self.nb_rows;
        let ghost s0 = *self;
        let mut new_row = self.basis.get_row(k).to_owned();
        assert(new_row.dimension == new_row.values().len());
        let mut j: usize = 0;
        while j < k
            invariant
                self.inv(),
                self.nb_rows == n,
                self.nb_cols == s0.nb_cols,
                1 <= k < n,
                j <= k,
                self.basis == s0.basis,
                self.coordinates == s0.coordinates,
                self.base_gso == s0.base_gso,
                self.norms == s0.norms,
                self.params == s0.params,
                s0.mu.wf(),
                s0.mu.row_count == n,
                s0.mu.column_count == n,
                new_row.wf_vec(),
                new_row.dimension == s0.nb_cols,
                forall|jj: int|
                    0 <= jj < j ==> q_eq(
                        #[trigger] self.mu.entry(k as int, jj),
                        if s0.norms.values()[jj].n == 0 {
                            q_int(0)
                        } else {
                            q_div(
                                q_dot(s0.basis.row_values(k as int), s0.base_gso.row_values(jj), s0.nb_cols as nat),
                                s0.norms.values()[jj],
                            )
                        },
                    ),
                forall|a: int, c: int|
                    0 <= a < n && 0 <= c < n && !(a == k && c < j) ==> #[trigger] self.mu.entry(a, c) == s0.mu.entry(a, c),
                forall|c: int|
                    0 <= c < s0.nb_cols ==> q_eq(
                        #[trigger] new_row.values()[c],
                        gso_residual(s0.basis, s0.base_gso, self.mu, k as int, j as nat, c),
                    ),
            decreases k - j,
        {
            proof {
                lemma_mat_index(n as int, n as int, k as int, j as int);
            }
            let ghost before = self.mu;
            if !self.norms.get(j).is_zero() {
                let d = self.basis.get_row(k).dot(&self.base_gso.get_row(j));
                let v = rat_div(&d, self.norms.get(j));
                proof {
                    let dd = q_dot(s0.basis.row_values(k as int), s0.base_gso.row_values(j as int), s0.nb_cols as nat);
                    let nj = s0.norms.values()[j as int];
                    self.norms.lemma_values_wf();
                    crate::math::component::rational::lemma_q_dot_wf(
                        s0.basis.row_values(k as int),
                        s0.base_gso.row_values(j as int),
                        s0.nb_cols as nat,
                    );
                    crate::math::component::rational::lemma_q_div_cong(d@, dd, nj, nj);
                    lemma_q_ops_wf(d@, nj);
                    lemma_q_eq_trans(v@, q_div(d@, nj), q_div(dd, nj));
                }
                self.mu.set(k, j, v);
            } else {
                self.mu.set(k, j, BigRational::zero());
            }
            let ghost row_before = new_row;
            let ghost row0 = new_row.values();
            let scaled = vec_scale(&self.base_gso.get_row(j), self.mu.get(k, j));
            new_row.sub_assign(&scaled);
            proof {
                assert forall|c: int| 0 <= c < s0.nb_cols implies q_eq(
                    #[trigger] new_row.values()[c],
                    gso_residual(s0.basis, s0.base_gso, self.mu, k as int, (j + 1) as nat, c),
                ) by {
                    lemma_gso_residual_frame(s0.basis, s0.base_gso, before, self.mu, k as int, j as nat, c);
                    let res = gso_residual(s0.basis, s0.base_gso, self.mu, k as int, j as nat, c);
                    let term = q_mul(s0.base_gso.entry(j as int, c), self.mu.entry(k as int, j as int));
                    assert(q_eq(row0[c], res));
                    assert(q_eq(scaled.values()[c], term));
                    lemma_q_sub_cong(row0[c], res, scaled.values()[c], term);
                    row_before.lemma_values_wf();
                    scaled.lemma_values_wf();
                    lemma_q_ops_wf(row0[c], scaled.values()[c]);
                    lemma_q_eq_trans(new_row.values()[c], q_sub(row0[c], scaled.values()[c]), q_sub(res, term));
                }
            }
            j = j + 1;
        }
        let m = new_row.magnitude_sq();
        let ghost row_vals = new_row.values();
        self.norms.set(k, m);
        let ghost gso0 = self.base_gso;
        proof {
            if s0.nb_cols > 0 {
                lemma_mat_index(n as int, s0.nb_cols as int, k as int, (s0.nb_cols - 1) as int);
            }
        }
        self.base_gso.set_row(k, new_row);
        proof {
            assert(self.base_gso.row_values(k as int) =~= row_vals);
        }
    }

    /// Swaps rows `k - 1` and `k` of the basis (and of the coordinates) and updates the
    /// Gram-Schmidt data of rows `k - 1 ..= kmax` to match. With `m = mu[k][k - 1]` and
    /// `B = norms[k] + m^2 * norms[k - 1]`: where `B` is zero the orthogonal rows and their
    /// norms are exchanged (the new `norms[k - 1]` zero) and columns `k - 1`, `k` of the rows
    /// below move one to the right; where `norms[k]` is zero and `m` is not, orthogonal row
    /// `k - 1` is scaled by `m`, `norms[k - 1]` becomes `B` and `mu[k][k - 1]` becomes `1 / m`;
    /// otherwise the standard exchange formulas apply.
    #[verifier::rlimit(60)]
    fn swapg(&mut self, k: usize, kmax: usize)
        requires
            old(self).inv(),
            1 <= k <= kmax < old(self).nb_rows,
        ensures
            final(self).inv(),
            final(self).nb_rows == old(self).nb_rows,
            final(self).nb_cols == old(self).nb_cols,
            final(self).params == old(self).params,
            forall|r: int, c: int|
                0 <= r < old(self).nb_rows && 0 <= c < old(self).nb_cols ==> #[trigger] final(self).basis.entry(r, c)
                    == old(self).basis.entry(if r == k { k - 1 } else if r == k - 1 { k as int } else { r }, c),
            forall|r: int, c: int|
                0 <= r < old(self).nb_rows && 0 <= c < old(self).nb_rows ==> #[trigger] final(self).coordinates.entry(r, c)
                    == old(self).coordinates.entry(if r == k { k - 1 } else if r == k - 1 { k as int } else { r }, c),
            forall|j: int| 0 <= j < k - 1 ==> #[trigger] final(self).mu.entry(k as int, j) == old(self).mu.entry(k - 1, j),
            forall|j: int| 0 <= j < k - 1 ==> #[trigger] final(self).mu.entry(k - 1, j) == old(self).mu.entry(k as int, j),
            forall|r: int, c: int|
                0 <= r < old(self).nb_rows && 0 <= c < old(self).nb_rows && !swap_touches(r, c, k as int, kmax as int)
                    ==> #[trigger] final(self).mu.entry(r, c) == old(self).mu.entry(r, c),
            forall|a: int|
                0 <= a < old(self).nb_rows && a != k && a != k - 1 ==> #[trigger] final(self).norms.values()[a]
                    == old(self).norms.values()[a],
            forall|a: int, c: int|
                0 <= a < old(self).nb_rows && a != k && a != k - 1 && 0 <= c < old(self).nb_cols ==> #[trigger] final(self).base_gso.entry(a, c)
                    == old(self).base_gso.entry(a, c),
            ({
                let s = *old(self);
                let f = *final(self);
                let ki = k as int;
                let m = s.mu.entry(ki, ki - 1);
                let nk = s.norms.values()[ki];
                let nk1 = s.norms.values()[ki - 1];
                let big = q_add(nk, q_mul(q_mul(m, m), nk1));
                &&& big.n == 0 ==> {
                    &&& f.norms.values()[ki] == nk1
                    &&& f.norms.values()[ki - 1] == q_int(0)
                    &&& forall|c: int| 0 <= c < s.nb_cols ==> #[trigger] f.base_gso.entry(ki, c) == s.base_gso.entry(ki - 1, c)
                    &&& forall|c: int| 0 <= c < s.nb_cols ==> #[trigger] f.base_gso.entry(ki - 1, c) == s.base_gso.entry(ki, c)
                    &&& f.mu.entry(ki, ki - 1) == m
                    &&& forall|i: int| ki < i <= kmax ==> #[trigger] f.mu.entry(i, ki) == s.mu.entry(i, ki - 1)
                    &&& forall|i: int| ki < i <= kmax ==> #[trigger] f.mu.entry(i, ki - 1) == q_int(0)
                }
                &&& big.n != 0 && nk.n == 0 && m.n != 0 ==> {
                    &&& q_eq(f.norms.values()[ki - 1], big)
                    &&& f.norms.values()[ki] == nk
                    &&& forall|c: int|
                        0 <= c < s.nb_cols ==> q_eq(#[trigger] f.base_gso.entry(ki - 1, c), q_mul(s.base_gso.entry(ki - 1, c), m))
                    &&& forall|c: int| 0 <= c < s.nb_cols ==> #[trigger] f.base_gso.entry(ki, c) == s.base_gso.entry(ki, c)
                    &&& q_eq(f.mu.entry(ki, ki - 1), q_div(q_int(1), m))
                    &&& forall|i: int| ki < i <= kmax ==> q_eq(#[trigger] f.mu.entry(i, ki), q_div(s.mu.entry(i, ki - 1), m))
                    &&& forall|i: int| ki < i <= kmax ==> #[trigger] f.mu.entry(i, ki - 1) == s.mu.entry(i, ki - 1)
                }
                &&& big.n != 0 && !(nk.n == 0 && m.n != 0) ==> {
                    let t = q_div(nk1, big);
                    let nm = f.mu.entry(ki, ki - 1);
                    &&& q_eq(nm, q_mul(m, t))
                    &&& q_eq(f.norms.values()[ki], q_mul(nk, t))
                    &&& q_eq(f.norms.values()[ki - 1], big)
                    &&& forall|c: int|
                        0 <= c < s.nb_cols ==> q_eq(
                            #[trigger] f.base_gso.entry(ki - 1, c),
                            q_add(s.base_gso.entry(ki, c), q_mul(s.base_gso.entry(ki - 1, c), m)),
                        )
                    &&& forall|c: int|
                        0 <= c < s.nb_cols ==> q_eq(
                            #[trigger] f.base_gso.entry(ki, c),
                            q_sub(q_mul(s.base_gso.entry(ki - 1, c), q_div(nk, big)), q_mul(s.base_gso.entry(ki, c), nm)),
                        )
                    &&& forall|i: int|
                        ki < i <= kmax ==> q_eq(#[trigger] f.mu.entry(i, ki), q_sub(s.mu.entry(i, ki - 1), q_mul(m, s.mu.entry(i, ki))))
                    &&& forall|i: int|
                        ki < i <= kmax ==> q_eq(#[trigger] f.mu.entry(i, ki - 1), q_add(q_mul(nm, f.mu.entry(i, ki)), s.mu.entry(i, ki)))
                }
            }),
    {
        let n = self.nb_rows;
        let cols = self.nb_cols;
        let ghost s0 = *self;
        self.basis.swap_rows(k, k - 1);
        self.coordinates.swap_rows(k, k - 1);
        let ghost b1 = self.basis;
        let ghost c1 = self.coordinates;
        if k > 1 {
            let mut j: usize = 0;
            while j < k - 1
                invariant
                    self.inv(),
                    self.nb_rows == n,
                    self.nb_cols == cols,
                    self.basis == b1,
                    self.coordinates == c1,
                    self.norms == s0.norms,
                    self.base_gso == s0.base_gso,
                    self.params == s0.params,
                    1 < k < n,
                    j <= k - 1,
                    forall|r: int, c: int|
                        0 <= r < n && 0 <= c < n ==> #[trigger] self.mu.entry(r, c) == s0.mu.entry(
                            if r == k && c < j { k - 1 } else if r == k - 1 && c < j { k as int } else { r },
                            c,
                        ),
                decreases k - 1 - j,
            {
                proof {
                    lemma_mat_index(n as int, n as int, k as int, j as int);
                    lemma_mat_index(n as int, n as int, (k - 1) as int, j as int);
                }
                self.mu.swap_elements(k, j, k - 1, j);
                j = j + 1;
            }
        }
        let ghost mu1 = self.mu;
        proof {
            assert forall|r: int, c: int| 0 <= r < n && 0 <= c < n implies #[trigger] mu1.entry(r, c) == s0.mu.entry(
                if r == k && c < k - 1 { k - 1 } else if r == k - 1 && c < k - 1 { k as int } else { r },
                c,
            ) by {
                if k == 1 {
                    assert(mu1 == s0.mu);
                }
            }
            lemma_mat_index(n as int, n as int, k as int, (k - 1) as int);
            assert(mu1.entry(k as int, k - 1) == s0.mu.entry(k as int, k - 1));
        }
        let tmu = self.mu.get(k, k - 1).clone();
        let tmu_sq = rat_mul(&tmu, &tmu);
        let scaled_norm = rat_mul(&tmu_sq, self.norms.get(k - 1));
        let t_b = rat_add(self.norms.get(k), &scaled_norm);
        let ghost m = tmu@;
        let ghost nk = s0.norms.values()[k as int];
        let ghost nk1 = s0.norms.values()[k - 1];
        let ghost big = q_add(nk, q_mul(q_mul(m, m), nk1));
        proof {
            self.norms.lemma_values_wf();
            lemma_entry_wf(&self.mu, k as int, k - 1);
            lemma_q_ops_wf(m, m);
            lemma_q_ops_wf(q_mul(m, m), nk1);
            lemma_q_ops_wf(nk, q_mul(q_mul(m, m), nk1));
            lemma_q_ops_wf(tmu_sq@, nk1);
            lemma_q_mul_cong(tmu_sq@, q_mul(m, m), nk1, nk1);
            lemma_q_eq_trans(scaled_norm@, q_mul(tmu_sq@, nk1), q_mul(q_mul(m, m), nk1));
            lemma_q_add_cong(nk, nk, scaled_norm@, q_mul(q_mul(m, m), nk1));
            lemma_q_ops_wf(nk, scaled_norm@);
            lemma_q_eq_trans(t_b@, q_add(nk, scaled_norm@), big);
            lemma_q_eq_zero_one(t_b@, big);
        }
        if t_b.is_zero() {
            let previous = self.norms.get(k - 1).clone();
            self.norms.set(k, previous);
            self.norms.set(k - 1, BigRational::zero());
            self.base_gso.swap_rows(k, k - 1);
            let mut i: usize = k + 1;
            while i <= kmax
                invariant
                    self.inv(),
                    self.nb_rows == n,
                    self.nb_cols == cols,
                    self.basis == b1,
                    self.coordinates == c1,
                    self.params == s0.params,
                    1 <= k <= kmax < n,
                    k + 1 <= i <= kmax + 1,
                    self.norms.values() == s0.norms.values().update(k as int, nk1).update(k - 1, q_int(0)),
                    forall|r: int, c: int|
                        0 <= r < n && 0 <= c < cols ==> #[trigger] self.base_gso.entry(r, c) == s0.base_gso.entry(
                            if r == k { k - 1 } else if r == k - 1 { k as int } else { r },
                            c,
                        ),
                    forall|r: int, c: int|
                        0 <= r < n && 0 <= c < n ==> #[trigger] self.mu.entry(r, c) == if k < r < i && c == k {
                            mu1.entry(r, k - 1)
                        } else if k < r < i && c == k - 1 {
                            q_int(0)
                        } else {
                            mu1.entry(r, c)
                        },
                decreases kmax + 1 - i,
            {
                proof {
                    lemma_mat_index(n as int, n as int, i as int, k as int);
                    lemma_mat_index(n as int, n as int, i as int, (k - 1) as int);
                }
                let x = self.mu.get(i, k - 1).clone();
                self.mu.set(i, k, x);
                self.mu.set(i, k - 1, BigRational::zero());
                i = i + 1;
            }
        } else if self.norms.get(k).is_zero() && !tmu.is_zero() {
            self.norms.set(k - 1, t_b);
            self.base_gso.row_mul_assign(k - 1, &tmu);
            let one = BigRational::one();
            self.mu.set(k, k - 1, rat_div(&one, &tmu));
            let ghost mu2 = self.mu;
            let ghost norms2 = self.norms;
            let ghost gso2 = self.base_gso;
            let mut i: usize = k + 1;
            while i <= kmax
                invariant
                    self.inv(),
                    self.nb_rows == n,
                    self.nb_cols == cols,
                    self.basis == b1,
                    self.coordinates == c1,
                    self.params == s0.params,
                    1 <= k <= kmax < n,
                    k + 1 <= i <= kmax + 1,
                    wf_rat(tmu),
                    tmu@ == m,
                    m.n != 0,
                    self.norms == norms2,
                    self.base_gso == gso2,
                    mu2.wf(),
                    mu2.row_count == n,
                    mu2.column_count == n,
                    forall|r: int, c: int|
                        0 <= r < n && 0 <= c < n && !(k < r < i && c == k) ==> #[trigger] self.mu.entry(r, c) == mu2.entry(r, c),
                    forall|r: int| k < r < i ==> q_eq(#[trigger] self.mu.entry(r, k as int), q_div(mu2.entry(r, k - 1), m)),
                decreases kmax + 1 - i,
            {
                proof {
                    lemma_mat_index(n as int, n as int, i as int, k as int);
                    lemma_mat_index(n as int, n as int, i as int, (k - 1) as int);
                }
                let x = rat_div(self.mu.get(i, k - 1), &tmu);
                self.mu.set(i, k, x);
                i = i + 1;
            }
        } else {
            let t = rat_div(self.norms.get(k - 1), &t_b);
            self.mu.set(k, k - 1, rat_mul(&tmu, &t));
            let ghost mu3 = self.mu;
            let ghost nm = self.mu.entry(k as int, k - 1);
            let ghost g0 = self.base_gso;
            let b = self.base_gso.get_row(k - 1).to_owned();
            let b_scaled = vec_scale(&b, &tmu);
            let upper = vec_add(&self.base_gso.get_row(k), &b_scaled);
            proof {
                if cols > 0 {
                    lemma_mat_index(n as int, cols as int, (k - 1) as int, (cols - 1) as int);
                    lemma_mat_index(n as int, cols as int, k as int, (cols - 1) as int);
                }
                assert(upper.dimension == upper.values().len());
            }
            self.base_gso.set_row(k - 1, upper);
            let ratio = rat_div(self.norms.get(k), &t_b);
            let left = vec_scale(&b, &ratio);
            let right = vec_scale(&self.base_gso.get_row(k), self.mu.get(k, k - 1));
            let lower = vec_sub(&left, &right);
            proof {
                assert(lower.dimension == lower.values().len());
            }
            self.base_gso.set_row(k, lower);
            let new_norm = rat_mul(self.norms.get(k), &t);
            self.norms.set(k, new_norm);
            self.norms.set(k - 1, t_b);
            let ghost norms3 = self.norms;
            let ghost gso3 = self.base_gso;
            proof {
                let td = q_div(nk1, big);
                lemma_q_ops_wf(nk1, t_b@);
                lemma_q_ops_wf(nk1, big);
                lemma_q_ops_wf(nk, t_b@);
                lemma_q_ops_wf(nk, big);
                lemma_q_div_cong(nk1, nk1, t_b@, big);
                lemma_q_div_cong(nk, nk, t_b@, big);
                lemma_q_eq_trans(t@, q_div(nk1, t_b@), td);
                lemma_q_mul_cong(m, m, t@, td);
                lemma_q_ops_wf(m, t@);
                lemma_q_eq_trans(nm, q_mul(m, t@), q_mul(m, td));
                lemma_q_mul_cong(nk, nk, t@, td);
                lemma_q_ops_wf(nk, t@);
                lemma_q_eq_trans(new_norm@, q_mul(nk, t@), q_mul(nk, td));
                lemma_q_eq_trans(ratio@, q_div(nk, t_b@), q_div(nk, big));
                assert forall|c: int| 0 <= c < cols implies q_eq(
                    #[trigger] self.base_gso.entry(k - 1, c),
                    q_add(g0.entry(k as int, c), q_mul(g0.entry(k - 1, c), m)),
                ) by {
                    lemma_entry_wf(&g0, k as int, c);
                    lemma_entry_wf(&g0, k - 1, c);
                    assert(b.values()[c] == g0.entry(k - 1, c));
                    assert(q_eq(b_scaled.values()[c], q_mul(g0.entry(k - 1, c), m)));
                    b_scaled.lemma_values_wf();
                    lemma_q_add_cong(g0.entry(k as int, c), g0.entry(k as int, c), b_scaled.values()[c], q_mul(g0.entry(k - 1, c), m));
                    lemma_q_ops_wf(g0.entry(k as int, c), b_scaled.values()[c]);
                    lemma_q_eq_trans(
                        upper.values()[c],
                        q_add(g0.entry(k as int, c), b_scaled.values()[c]),
                        q_add(g0.entry(k as int, c), q_mul(g0.entry(k - 1, c), m)),
                    );
                }
                assert forall|c: int| 0 <= c < cols implies q_eq(
                    #[trigger] self.base_gso.entry(k as int, c),
                    q_sub(q_mul(g0.entry(k - 1, c), q_div(nk, big)), q_mul(g0.entry(k as int, c), nm)),
                ) by {
                    lemma_entry_wf(&g0, k as int, c);
                    lemma_entry_wf(&g0, k - 1, c);
                    let bc = g0.entry(k - 1, c);
                    let gk = g0.entry(k as int, c);
                    assert(b.values()[c] == bc);
                    assert(q_eq(left.values()[c], q_mul(bc, ratio@)));
                    assert(q_eq(right.values()[c], q_mul(gk, nm)));
                    lemma_q_mul_cong(bc, bc, ratio@, q_div(nk, big));
                    lemma_q_ops_wf(bc, ratio@);
                    lemma_q_eq_trans(left.values()[c], q_mul(bc, ratio@), q_mul(bc, q_div(nk, big)));
                    left.lemma_values_wf();
                    right.lemma_values_wf();
                    lemma_q_sub_cong(left.values()[c], q_mul(bc, q_div(nk, big)), right.values()[c], q_mul(gk, nm));
                    lemma_q_ops_wf(left.values()[c], right.values()[c]);
                    lemma_q_eq_trans(
                        lower.values()[c],
                        q_sub(left.values()[c], right.values()[c]),
                        q_sub(q_mul(bc, q_div(nk, big)), q_mul(gk, nm)),
                    );
                }
            }
            let mut i: usize = k + 1;
            while i <= kmax
                invariant
                    self.inv(),
                    self.nb_rows == n,
                    self.nb_cols == cols,
                    self.basis == b1,
                    self.coordinates == c1,
                    self.params == s0.params,
                    1 <= k <= kmax < n,
                    k + 1 <= i <= kmax + 1,
                    wf_rat(tmu),
                    tmu@ == m,
                    self.norms == norms3,
                    self.base_gso == gso3,
                    mu3.wf(),
                    mu3.row_count == n,
                    mu3.column_count == n,
                    nm == mu3.entry(k as int, k - 1),
                    forall|r: int, c: int|
                        0 <= r < n && 0 <= c < n && !(k < r < i && (c == k || c == k - 1)) ==> #[trigger] self.mu.entry(r, c)
                            == mu3.entry(r, c),
                    forall|r: int|
                        k < r < i ==> q_eq(
                            #[trigger] self.mu.entry(r, k as int),
                            q_sub(mu3.entry(r, k - 1), q_mul(m, mu3.entry(r, k as int))),
                        ),
                    forall|r: int|
                        k < r < i ==> q_eq(
                            #[trigger] self.mu.entry(r, k - 1),
                            q_add(q_mul(nm, self.mu.entry(r, k as int)), mu3.entry(r, k as int)),
                        ),
                decreases kmax + 1 - i,
            {
                proof {
                    lemma_mat_index(n as int, n as int, i as int, k as int);
                    lemma_mat_index(n as int, n as int, i as int, (k - 1) as int);
                    lemma_mat_index(n as int, n as int, k as int, (k - 1) as int);
                }
                let new_t = self.mu.get(i, k).clone();
                let p = rat_mul(&tmu, &new_t);
                let x = rat_sub(self.mu.get(i, k - 1), &p);
                proof {
                    let a = mu3.entry(i as int, k - 1);
                    lemma_entry_wf(&mu3, i as int, k - 1);
                    lemma_entry_wf(&mu3, i as int, k as int);
                    lemma_q_sub_cong(a, a, p@, q_mul(m, new_t@));
                    lemma_q_ops_wf(a, p@);
                    lemma_q_eq_trans(x@, q_sub(a, p@), q_sub(a, q_mul(m, new_t@)));
                }
                self.mu.set(i, k, x);
                let q = rat_mul(self.mu.get(k, k - 1), self.mu.get(i, k));
                let y = rat_add(&q, &new_t);
                proof {
                    lemma_entry_wf(&mu3, k as int, k - 1);
                    lemma_q_add_cong(q@, q_mul(nm, x@), new_t@, new_t@);
                    lemma_q_ops_wf(q@, new_t@);
                    lemma_q_eq_trans(y@, q_add(q@, new_t@), q_add(q_mul(nm, x@), new_t@));
                }
                self.mu.set(i, k - 1, y);
                i = i + 1;
            }
        }
    }

    /// Drops as many leading rows as the basis has zero rows: from the basis, the
    /// orthogonalization, the coefficients (rows and columns) and the norms.
    fn remove_zeroes(&mut self)
        requires
            old(self).inv(),
            (old(self).nb_rows + 1) * old(self).nb_rows <= usize::MAX,
        ensures
            ({
                let p = zero_rows(old(self).basis, old(self).nb_rows as nat) as int;
                let n = old(self).nb_rows as int;
                &&& p <= n
                &&& final(self).basis.wf()
                &&& final(self).basis.row_count == n - p
                &&& final(self).basis.column_count == old(self).nb_cols
                &&& forall|r: int, c: int|
                    0 <= r < n - p && 0 <= c < old(self).nb_cols ==> #[trigger] final(self).basis.entry(r, c) == old(self).basis.entry(r + p, c)
            }),
    {
        let n = self.nb_rows;
        let cols = self.nb_cols;
        let ghost b0 = self.basis;
        let mut p: usize = 0;
        let mut i: usize = 0;
        while i < n
            invariant
                self.inv(),
                self.nb_rows == n,
                self.basis == b0,
                i <= n,
                p == zero_rows(b0, i as nat),
                p <= i,
            decreases n - i,
        {
            let row = self.basis.get_row(i);
            let z = row.is_zero();
            proof {
                if row_is_zero(b0, i as int) {
                    assert forall|c: int| 0 <= c < row.values().len() implies (#[trigger] row.values()[c]).n == 0 by {
                        assert(row.values()[c] == b0.entry(i as int, c));
                    }
                }
                if z {
                    assert forall|c: int| 0 <= c < b0.column_count implies (#[trigger] b0.entry(i as int, c)).n == 0 by {
                        assert(row.values()[c] == b0.entry(i as int, c));
                    }
                }
                assert(z == row_is_zero(b0, i as int));
            }
            if z {
                p = p + 1;
            }
            i = i + 1;
        }
        proof {
            lemma_window_fits(&self.basis, p as int, 0, (n - p) as int, cols as int);
            lemma_window_fits(&self.base_gso, p as int, 0, (n - p) as int, cols as int);
            lemma_window_fits(&self.mu, p as int, p as int, (n - p) as int, (n - p) as int);
            assert((n + 1) * n == n * n + n) by (nonlinear_arith);
        }
        self.basis.shink(p, 0, n - p, cols);
        self.base_gso.shink(p, 0, n - p, cols);
        self.mu.shink(p, p, n - p, n - p);
        proof {
            assert forall|r: int, c: int| 0 <= r < n - p && 0 <= c < cols implies #[trigger] self.basis.entry(r, c) == b0.entry(r + p, c) by {
                lemma_mat_index((n - p) as int, cols as int, r, c);
                assert(self.basis.values()[c + cols * r] == self.basis.entry(r, c));
                assert(p * cols + 0 + cols * r + c == c + cols * (r + p)) by (nonlinear_arith);
                lemma_mat_index(n as int, cols as int, r + p, c);
                assert(b0.values()[c + cols * (r + p)] == b0.entry(r + p, c));
            }
        }
        let norms = &self.norms;
        let generator = |i: usize| -> (x: BigRational)
            requires
                i < n - p,
                norms.wf_vec(),
                norms.dimension == n,
            ensures
                wf_rat(x),
            {
                norms.get(i + p).clone()
            };
        let new_norms = OwnedBigVector::new_from(n - p, generator);
        self.norms = new_norms;
    }

    /// Runs the reduction: row by row, size-reduces and swaps where the Lovasz condition
    /// fails, then drops the zero rows. The main loop stops after at most 2^64 - 1 rounds.
    fn reduce_lll(self) -> (r: BigMatrix)
        requires
            self.inv(),
            1 <= self.nb_rows <= i32::MAX,
            (self.nb_rows + 1) * self.nb_rows <= usize::MAX,
            self.params.max_stage == -1 || 1 <= self.params.max_stage <= self.nb_rows,
        ensures
            r.wf(),
            r.column_count == self.nb_cols,
            r.row_count <= self.nb_rows,
            forall|i: int| 0 <= i < r.row_count ==> in_lattice(r, i, self.basis),
    {
        let mut this = self;
        this.run()
    }

    fn run(&mut self) -> (r: BigMatrix)
        requires
            old(self).inv(),
            1 <= old(self).nb_rows <= i32::MAX,
            (old(self).nb_rows + 1) * old(self).nb_rows <= usize::MAX,
            old(self).params.max_stage == -1 || 1 <= old(self).params.max_stage <= old(self).nb_rows,
        ensures
            r.wf(),
            r.column_count == old(self).nb_cols,
            r.row_count <= old(self).nb_rows,
            forall|i: int| 0 <= i < r.row_count ==> in_lattice(r, i, old(self).basis),
    {
        let mut k: usize = 1;
        let mut kmax: usize = 0;
        let n = if self.params.max_stage == -1 {
            self.nb_rows
        } else {
            self.params.max_stage as usize
        };
        let rows = self.nb_rows;
        let cols = self.nb_cols;
        let ghost orig = self.basis;
        let ghost mut w = identity_weights(rows as nat);
        proof {
            lemma_rows_combine_identity(orig);
        }
        let first = self.basis.get_row(0).to_owned();
        proof {
            if cols > 0 {
                lemma_mat_index(rows as int, cols as int, 0, (cols - 1) as int);
            }
            assert(first.dimension == first.values().len());
        }
        self.base_gso.set_row(0, first);
        let mut update_gso = true;
        let first_norm = self.basis.get_row(0).magnitude_sq();
        self.norms.set(0, first_norm);
        let mut budget: u64 = u64::MAX;
        while k < n && budget > 0
            invariant
                self.inv(),
                self.nb_rows == rows,
                self.nb_cols == cols,
                1 <= rows <= i32::MAX,
                (rows + 1) * rows <= usize::MAX,
                1 <= n <= rows,
                1 <= k <= n,
                kmax < n,
                k <= kmax + 1,
                k == kmax + 1 ==> update_gso,
                orig == old(self).basis,
                orig.wf(),
                orig.row_count == rows,
                orig.column_count == cols,
                rows_combine(self.basis, orig, w),
            decreases budget,
        {
            budget = budget - 1;
            if k > kmax && update_gso {
                kmax = k;
                self.update_gso(k);
            }
            let ghost b0 = self.basis;
            let ghost kk = round_half_up(self.mu.entry(k as int, k - 1));
            self.red(k, k - 1);
            proof {
                if kk != 0 {
                    lemma_rows_combine_sub(b0, self.basis, orig, w, k as int, k - 1, kk);
                    w = w.update(k as int, weights_sub(w[k as int], w[k - 1], kk));
                }
            }
            if self.test_condition(k) {
                let ghost b1 = self.basis;
                self.swapg(k, kmax);
                proof {
                    lemma_rows_combine_swap(b1, self.basis, orig, w, k as int, k - 1);
                    let w0 = w;
                    w = w0.update(k as int, w0[k - 1]).update(k - 1, w0[k as int]);
                }
                k = if k > 1 {
                    k - 1
                } else {
                    1
                };
                update_gso = false;
            } else {
                let mut l: i32 = k as i32 - 2;
                while l >= 0
                    invariant
                        self.inv(),
                        self.nb_rows == rows,
                        self.nb_cols == cols,
                        1 <= k < n <= rows <= i32::MAX,
                        -1 <= l <= k - 2,
                        orig.wf(),
                        orig.row_count == rows,
                        orig.column_count == cols,
                        rows_combine(self.basis, orig, w),
                    decreases l + 1,
                {
                    let ghost b0 = self.basis;
                    let ghost kk = round_half_up(self.mu.entry(k as int, l as int));
                    self.red(k, l as usize);
                    proof {
                        if kk != 0 {
                            lemma_rows_combine_sub(b0, self.basis, orig, w, k as int, l as int, kk);
                            w = w.update(k as int, weights_sub(w[k as int], w[l as int], kk));
                        }
                    }
                    l = l - 1;
                }
                k = k + 1;
                update_gso = true;
            }
        }
        let ghost bz = self.basis;
        self.remove_zeroes();
        proof {
            let p = zero_rows(bz, rows as nat) as int;
            lemma_rows_in_lattice(bz, orig, w, self.basis, p);
        }
        let mut result = BigMatrix::new(0, 0);
        std::mem::swap(&mut result, &mut self.basis);
        result
    }
}

} // verus!
