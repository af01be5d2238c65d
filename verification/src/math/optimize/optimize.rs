//! A simplex solver over exact rationals for the box constraints of the lattice
//! enumeration.
use crate::math::component::arith::{rat_div, rat_lt, rat_mul, rat_sub};
use crate::math::component::big_matrix::{lemma_entry_wf, lemma_mat_index, BigMatrix};
use crate::math::component::big_vector::{q_eq_seq, q_seq_scale, vec_scale, OwnedBigVector, Vector, ViewBigVector};
use crate::math::component::rational::{
    lemma_q_add_accumulate, lemma_q_dot_wf, lemma_q_eq_trans, lemma_q_neg_cong, lemma_q_le_lt_trans, lemma_q_le_trans, lemma_q_lt_cong,
    lemma_q_lt_le_trans, lemma_q_mul_comm, lemma_q_mul_cong, lemma_q_mul_minus_one, lemma_q_div_cong, lemma_q_div_zero, lemma_q_eq_zero_one, lemma_q_mul_zero, lemma_q_sub_zero, lemma_q_ops_wf, lemma_q_sub_accumulate, lemma_q_sub_int_zero,
    q_add, q_div, q_dot, q_eq, q_int, q_lt, q_mul, q_neg, q_sub, q_wf, wf_rat, BigRational, Q,
};
use crate::math::optimize::gauss_jordan::{free_column_ok, pivot_rows_ordered, pivots_ok, reduce_matrix, reduce_with_action};
use crate::util::util::{copy_of_usizes, filled_vec, resized_usizes};
use std::sync::Arc;
use vstd::prelude::*;

verus! {

/// std's `Arc::clone`: another handle on the same value.
#[verifier::external_body]
fn share<T>(a: &Arc<T>) -> (r: Arc<T>)
    ensures
        r == *a,
{
    a.clone()
}

/// A simplex tableau: one row per basic variable and the objective row last, one column per
/// nonbasic variable and the right-hand side last; `transform` maps the problem variables
/// to the tableau's.
pub struct Optimize {
    pub transform: Arc<BigMatrix>,
    pub table: BigMatrix,
    pub basics: Vec<usize>,
    pub nonbasics: Vec<usize>,
    pub rows: usize,
    pub rows_m1: usize,
    pub cols: usize,
    pub cols_m1: usize,
}

impl Optimize {
    /// The marker of a row without a basic variable.
    pub const NO_VALUE: usize = usize::MAX;

    /// The tableau has at least one row and one column, the sizes match it, and there is a
    /// basic variable per constraint row and a nonbasic one per variable column.
    pub open spec fn wf(&self) -> bool {
        &&& self.table.wf()
        &&& self.table.row_count == self.rows
        &&& self.table.column_count == self.cols
        &&& self.rows >= 1
        &&& self.cols >= 1
        &&& self.rows_m1 == self.rows - 1
        &&& self.cols_m1 == self.cols - 1
        &&& self.basics.len() >= self.rows_m1
        &&& self.nonbasics.len() >= self.cols_m1
        &&& self.transform.wf()
    }

    /// The transform has a column per variable and one for the right-hand side, and every
    /// basic and nonbasic variable is one of its columns.
    pub open spec fn fits_transform(&self) -> bool {
        &&& self.transform.column_count >= 1
        &&& forall|i: int| 0 <= i < self.rows_m1 ==> #[trigger] self.basics@[i] < self.transform.column_count
        &&& forall|i: int| 0 <= i < self.cols_m1 ==> #[trigger] self.nonbasics@[i] < self.transform.column_count
    }

    /// The number of rows of the transform: the number of problem variables.
    pub open spec fn variables(&self) -> nat {
        self.transform.row_count as nat
    }

    /// The objective coefficient of column `c`: its entry in the last row.
    pub open spec fn objective(&self, c: int) -> Q {
        self.table.entry(self.rows_m1 as int, c)
    }

    /// The ratio of row `r` for column `e`: the right-hand side over the entry.
    pub open spec fn ratio(&self, r: int, e: int) -> Q {
        q_div(self.table.entry(r, self.cols_m1 as int), self.table.entry(r, e))
    }

    /// Some constraint row has a zero right-hand side: the vertex is degenerate, and the
    /// entering column follows Bland's rule.
    pub open spec fn degenerate(&self) -> bool {
        exists|r: int| 0 <= r < self.rows_m1 && (#[trigger] self.table.entry(r, self.cols_m1 as int)).n == 0
    }

    /// The basic solution is feasible: no constraint row has a negative right-hand side.
    pub open spec fn feasible(&self) -> bool {
        forall|r: int| 0 <= r < self.rows_m1 ==> (#[trigger] self.table.entry(r, self.cols_m1 as int)).n >= 0
    }

    /// Entry `k` of the constraint `lhs . x = rhs` carried through the transform: `rhs` in
    /// the last column, less `lhs` dotted with column `k` of the transform.
    pub open spec fn transformed_entry(&self, lhs: Seq<Q>, rhs: Q, k: int) -> Q {
        q_sub(
            if k == self.transform.column_count - 1 { rhs } else { q_int(0) },
            q_dot(lhs, self.transform.column_values(k), self.transform.row_count as nat),
        )
    }

    /// Entry `c` of the tableau row of the constraint `lhs . x = rhs`: the transformed entry
    /// of nonbasic variable `c` (of the right-hand side in the last column), less the
    /// transformed entries of the basic variables dotted with column `c` of the constraint
    /// rows.
    pub open spec fn table_row_entry(&self, lhs: Seq<Q>, rhs: Q, c: int) -> Q {
        let own = if c < self.cols_m1 {
            self.transformed_entry(lhs, rhs, self.nonbasics@[c] as int)
        } else {
            self.transformed_entry(lhs, rhs, self.transform.column_count - 1)
        };
        q_sub(own, q_dot(self.basic_entries(lhs, rhs), self.table.column_values(c), self.rows_m1 as nat))
    }

    /// The transformed entries of the basic variables, row by row.
    pub open spec fn basic_entries(&self, lhs: Seq<Q>, rhs: Q) -> Seq<Q> {
        Seq::new(self.rows_m1 as nat, |r: int| self.transformed_entry(lhs, rhs, self.basics@[r] as int))
    }

    /// `start` is this tableau with its objective row set for minimizing `gradient . x`: the
    /// negated tableau row of the constraint `gradient . x = 0`, the rest unchanged.
    pub open spec fn starts_from(&self, start: Optimize, gradient: Seq<Q>) -> bool {
        &&& start.wf()
        &&& start.transform == self.transform
        &&& start.rows == self.rows
        &&& start.cols == self.cols
        &&& start.basics == self.basics
        &&& start.nonbasics == self.nonbasics
        &&& forall|r: int, c: int|
            0 <= r < self.rows_m1 && 0 <= c < self.cols ==> #[trigger] start.table.entry(r, c) == self.table.entry(r, c)
        &&& forall|c: int|
            0 <= c < self.cols ==> q_eq(#[trigger] start.objective(c), q_neg(self.table_row_entry(gradient, q_int(0), c)))
    }

    /// `t` is this tableau with the constraint `lhs . x = rhs` added as a last constraint row
    /// (negated where its right-hand side is negative) and a zero objective row after it.
    pub open spec fn bound_table(&self, lhs: Seq<Q>, rhs: Q, t: BigMatrix) -> bool {
        let m = self.rows_m1 as int;
        let flip = self.table_row_entry(lhs, rhs, self.cols_m1 as int).n < 0;
        &&& t.wf()
        &&& t.row_count == self.rows + 1
        &&& t.column_count == self.cols
        &&& forall|r: int, c: int| 0 <= r < m && 0 <= c < self.cols ==> #[trigger] t.entry(r, c) == self.table.entry(r, c)
        &&& forall|c: int|
            0 <= c < self.cols ==> q_eq(
                #[trigger] t.entry(m, c),
                if flip { q_neg(self.table_row_entry(lhs, rhs, c)) } else { self.table_row_entry(lhs, rhs, c) },
            )
        &&& forall|c: int| 0 <= c < self.cols ==> #[trigger] t.entry(m + 1, c) == q_int(0)
    }

    /// The basic variables of the tableau with one more constraint row, whose basic variable is
    /// a new artificial one.
    pub open spec fn bound_basics(&self) -> Seq<usize> {
        resized_usizes(self.basics@, self.rows as nat).update(self.rows_m1 as int, (self.rows_m1 + self.cols_m1) as usize)
    }

    /// The nonbasic variables of the tableau with one more constraint row.
    pub open spec fn bound_nonbasics(&self) -> Seq<usize> {
        resized_usizes(self.nonbasics@, self.cols_m1 as nat)
    }

    /// `r` is this tableau with the constraint `lhs . x = rhs` added: the first phase on
    /// [Optimize::bound_table].
    pub open spec fn strict_bound_result(&self, lhs: Seq<Q>, rhs: Q, r: Optimize) -> bool {
        exists|t: BigMatrix|
            #[trigger] self.bound_table(lhs, rhs, t) && phase_one(t, self.bound_basics(), self.bound_nonbasics(), 1, self.transform, r)
    }

    /// Adding the constraint `lhs . x = rhs` fails: the first phase on
    /// [Optimize::bound_table] fails.
    pub open spec fn strict_bound_fails(&self, lhs: Seq<Q>, rhs: Q) -> bool {
        exists|t: BigMatrix|
            #[trigger] self.bound_table(lhs, rhs, t) && phase_one_fails(t, self.bound_basics(), self.bound_nonbasics(), 1)
    }

    /// The corner of the tableau, the value that [Optimize::minimize] reports.
    pub open spec fn corner(&self) -> Q {
        self.table.entry(self.rows_m1 as int, self.cols_m1 as int)
    }

    /// The simplex stops here without an optimum: the column that would enter has no
    /// positive entry in a constraint row, so the objective is unbounded.
    pub open spec fn unbounded(&self) -> bool {
        exists|e: int|
            #[trigger] self.entering_column(e) && forall|x: int|
                0 <= x < self.rows_m1 ==> (#[trigger] self.table.entry(x, e)).n <= 0
    }

    /// No objective coefficient is positive: the tableau is optimal.
    pub open spec fn optimal(&self) -> bool {
        forall|c: int| 0 <= c < self.cols_m1 ==> (#[trigger] self.objective(c)).n <= 0
    }

    /// Column `e` enters: its objective coefficient is positive, and it is the first such
    /// column at a degenerate vertex, else the first of the largest.
    pub open spec fn entering_column(&self, e: int) -> bool {
        &&& 0 <= e < self.cols_m1
        &&& self.objective(e).n > 0
        &&& self.degenerate() ==> forall|c: int| 0 <= c < e ==> (#[trigger] self.objective(c)).n <= 0
        &&& !self.degenerate() ==> forall|c: int|
            0 <= c < self.cols_m1 && (#[trigger] self.objective(c)).n > 0 ==> !q_lt(self.objective(e), self.objective(c))
                && (c < e ==> q_lt(self.objective(c), self.objective(e)))
    }

    /// Row `x` exits for the entering column `e`: its entry there is positive, and its ratio
    /// is the first of the smallest among the rows with a positive entry there.
    pub open spec fn exiting_row(&self, e: int, x: int) -> bool {
        &&& 0 <= x < self.rows_m1
        &&& self.table.entry(x, e).n > 0
        &&& forall|r: int|
            0 <= r < self.rows_m1 && (#[trigger] self.table.entry(r, e)).n > 0 ==> !q_lt(self.ratio(r, e), self.ratio(x, e))
                && (r < x ==> q_lt(self.ratio(x, e), self.ratio(r, e)))
    }

    /// `new` is this tableau after the pivot on row `exiting` and column `entering`, around
    /// the pivot `p` at their crossing: the pivot row is divided by `p`, every other row `r`
    /// loses `T[r][entering]` times the new pivot row, the pivot column becomes
    /// `-T[r][entering] / p`, the pivot itself `1 / p`, and the two variables trade places.
    pub open spec fn pivoted(&self, new: Optimize, entering: int, exiting: int) -> bool {
        let p = self.table.entry(exiting, entering);
        &&& new.wf()
        &&& new.transform == self.transform
        &&& new.rows == self.rows
        &&& new.cols == self.cols
        &&& new.basics@ == self.basics@.update(exiting, self.nonbasics@[entering])
        &&& new.nonbasics@ == self.nonbasics@.update(entering, self.basics@[exiting])
        &&& forall|c: int|
            0 <= c < self.cols && c != entering ==> q_eq(#[trigger] new.table.entry(exiting, c), q_div(self.table.entry(exiting, c), p))
        &&& q_eq(new.table.entry(exiting, entering), q_div(q_int(1), p))
        &&& forall|r: int, c: int|
            0 <= r < self.rows && r != exiting && 0 <= c < self.cols && c != entering ==> q_eq(
                #[trigger] new.table.entry(r, c),
                q_sub(self.table.entry(r, c), q_mul(self.table.entry(r, entering), new.table.entry(exiting, c))),
            )
        &&& forall|r: int|
            0 <= r < self.rows && r != exiting ==> q_eq(#[trigger] new.table.entry(r, entering), q_neg(q_div(self.table.entry(r, entering), p)))
    }

    /// Creates a tableau.
    pub fn new(table: BigMatrix, basics: Vec<usize>, nonbasics: Vec<usize>, transform: Arc<BigMatrix>) -> (o: Optimize)
        requires
            table.wf(),
            table.row_count >= 1,
            table.column_count >= 1,
            basics.len() >= table.row_count - 1,
            nonbasics.len() >= table.column_count - 1,
            transform.wf(),
        ensures
            o.wf(),
            o.table == table,
            o.basics == basics,
            o.nonbasics == nonbasics,
            o.transform == transform,
    {
        let rows = table.row_count;
        let cols = table.column_count;
        Optimize { transform, table, basics, nonbasics, rows, rows_m1: rows - 1, cols, cols_m1: cols - 1 }
    }

    /// Whether every basic and nonbasic variable is a column of the transform.
    pub fn transform_fits(&self) -> (r: bool)
        requires
            self.wf(),
        ensures
            r == self.fits_transform(),
    {
        let tc = self.transform.column_count;
        if tc < 1 {
            return false;
        }
        let mut i: usize = 0;
        while i < self.rows_m1
            invariant
                self.wf(),
                tc == self.transform.column_count,
                i <= self.rows_m1,
                forall|k: int| 0 <= k < i ==> #[trigger] self.basics@[k] < tc,
            decreases self.rows_m1 - i,
        {
            if self.basics[i] >= tc {
                return false;
            }
            i = i + 1;
        }
        let mut i: usize = 0;
        while i < self.cols_m1
            invariant
                self.wf(),
                tc == self.transform.column_count,
                i <= self.cols_m1,
                forall|k: int| 0 <= k < self.rows_m1 ==> #[trigger] self.basics@[k] < tc,
                forall|k: int| 0 <= k < i ==> #[trigger] self.nonbasics@[k] < tc,
            decreases self.cols_m1 - i,
        {
            if self.nonbasics[i] >= tc {
                return false;
            }
            i = i + 1;
        }
        true
    }

    /// Whether one more row fits: `(rows + 1) * cols` is a machine size.
    pub fn has_room(&self) -> (r: bool)
        requires
            self.wf(),
        ensures
            r == ((self.rows + 1) * self.cols <= usize::MAX),
    {
        match self.rows.checked_add(1) {
            Some(r1) => r1.checked_mul(self.cols).is_some(),
            None => {
                proof {
                    assert((self.rows + 1) * self.cols >= self.rows + 1) by (nonlinear_arith)
                        requires
                            self.cols >= 1,
                    ;
                }
                false
            },
        }
    }

    /// The row of the tableau for the constraint `lhs . x = rhs` on the problem variables:
    /// the constraint through the transform, then with the basic variables eliminated.
    fn transform_for_table(&self, lhs: &ViewBigVector, rhs: BigRational) -> (r: OwnedBigVector)
        requires
            self.wf(),
            self.fits_transform(),
            lhs.wf_vec(),
            lhs.values().len() >= self.transform.row_count,
            wf_rat(rhs),
        ensures
            r.wf_vec(),
            r.dimension == self.cols,
            forall|c: int| 0 <= c < self.cols ==> q_eq(#[trigger] r.values()[c], self.table_row_entry(lhs.values(), rhs@, c)),
    {
        let t = &*self.transform;
        let tc = t.column_count;
        let ghost lv = lhs.values();
        let ghost init = |k: int| if k == tc - 1 { rhs@ } else { q_int(0) };
        let mut transformed = OwnedBigVector::new(tc);
        transformed.set(tc - 1, rhs);
        proof {
            lhs.lemma_values_wf();
            assert forall|k: int| 0 <= k < tc implies q_eq(
                #[trigger] transformed.values()[k],
                q_sub(init(k), q_dot(lv, t.column_values(k), 0)),
            ) by {
                lemma_q_sub_int_zero(init(k));
            }
        }
        let mut row: usize = 0;
        while row < t.row_count
            invariant
                self.wf(),
                t == &*self.transform,
                t.wf(),
                tc == t.column_count,
                tc >= 1,
                lhs.wf_vec(),
                lv == lhs.values(),
                lhs.values().len() >= t.row_count,
                forall|i: int| 0 <= i < lv.len() ==> q_wf(#[trigger] lv[i]),
                wf_rat(rhs),
                init == (|k: int| if k == tc - 1 { rhs@ } else { q_int(0) }),
                transformed.wf_vec(),
                transformed.dimension == tc,
                row <= t.row_count,
                forall|k: int| 0 <= k < tc ==> q_eq(
                    #[trigger] transformed.values()[k],
                    q_sub(init(k), q_dot(lv, t.column_values(k), row as nat)),
                ),
            decreases t.row_count - row,
        {
            let x = lhs.get(row);
            let scaled = vec_scale(&t.get_row(row), x);
            let ghost before = transformed.values();
            transformed.sub_assign(&scaled);
            proof {
                transformed.lemma_values_wf();
                scaled.lemma_values_wf();
                assert forall|k: int| 0 <= k < tc implies q_eq(
                    #[trigger] transformed.values()[k],
                    q_sub(init(k), q_dot(lv, t.column_values(k), (row + 1) as nat)),
                ) by {
                    let col = t.column_values(k);
                    lemma_entry_wf(t, row as int, k);
                    assert(col[row as int] == t.entry(row as int, k));
                    assert(q_eq(scaled.values()[k], q_mul(t.entry(row as int, k), x@)));
                    lemma_q_mul_comm(t.entry(row as int, k), x@);
                    lemma_q_ops_wf(t.entry(row as int, k), x@);
                    lemma_q_ops_wf(x@, t.entry(row as int, k));
                    lemma_q_eq_trans(scaled.values()[k], q_mul(t.entry(row as int, k), x@), q_mul(x@, t.entry(row as int, k)));
                    assert forall|i: int| 0 <= i < col.len() implies q_wf(#[trigger] col[i]) by {
                        lemma_entry_wf(t, i, k);
                    }
                    lemma_q_dot_wf(lv, col, row as nat);
                    lemma_q_sub_accumulate(
                        transformed.values()[k],
                        before[k],
                        scaled.values()[k],
                        init(k),
                        q_dot(lv, col, row as nat),
                        q_mul(x@, t.entry(row as int, k)),
                    );
                }
            }
            row = row + 1;
        }
        let ghost tv = transformed.values();
        proof {
            assert forall|k: int| 0 <= k < tc implies q_eq(#[trigger] tv[k], self.transformed_entry(lv, rhs@, k)) by {}
        }
        let mut eliminated = OwnedBigVector::new(self.cols);
        let mut col: usize = 0;
        while col < self.cols_m1
            invariant
                self.wf(),
                self.fits_transform(),
                tc == self.transform.column_count,
                transformed.wf_vec(),
                transformed.dimension == tc,
                transformed.values() == tv,
                eliminated.wf_vec(),
                eliminated.dimension == self.cols,
                col <= self.cols_m1,
                forall|c: int| 0 <= c < col ==> #[trigger] eliminated.values()[c] == tv[self.nonbasics@[c] as int],
            decreases self.cols_m1 - col,
        {
            let v = transformed.get(self.nonbasics[col]).clone();
            eliminated.set(col, v);
            col = col + 1;
        }
        let last = transformed.get(tc - 1).clone();
        eliminated.set(self.cols_m1, last);
        let ghost bv = self.basic_entries(lv, rhs@);
        proof {
            assert forall|c: int| 0 <= c < self.cols implies q_eq(
                #[trigger] eliminated.values()[c],
                q_sub(
                    if c < self.cols_m1 { self.transformed_entry(lv, rhs@, self.nonbasics@[c] as int) } else { self.transformed_entry(lv, rhs@, tc - 1) },
                    q_dot(bv, self.table.column_values(c), 0),
                ),
            ) by {
                let k = if c < self.cols_m1 { self.nonbasics@[c] as int } else { tc - 1 };
                assert(eliminated.values()[c] == tv[k]);
                transformed.lemma_values_wf();
                let own = self.transformed_entry(lv, rhs@, k);
                assert(q_eq(tv[k], own));
                let tcol = self.transform.column_values(k);
                assert forall|i: int| 0 <= i < tcol.len() implies q_wf(#[trigger] tcol[i]) by {
                    lemma_entry_wf(&*self.transform, i, k);
                }
                lemma_q_dot_wf(lv, tcol, self.transform.row_count as nat);
                lemma_q_ops_wf(if k == tc - 1 { rhs@ } else { q_int(0) }, q_dot(lv, tcol, self.transform.row_count as nat));
                lemma_q_sub_int_zero(own);
                lemma_q_eq_trans(tv[k], own, q_sub(own, q_int(0)));
            }
        }
        let mut row: usize = 0;
        while row < self.rows_m1
            invariant
                self.wf(),
                self.fits_transform(),
                tc == self.transform.column_count,
                transformed.wf_vec(),
                transformed.dimension == tc,
                transformed.values() == tv,
                forall|k: int| 0 <= k < tc ==> q_eq(#[trigger] tv[k], self.transformed_entry(lv, rhs@, k)),
                bv == self.basic_entries(lv, rhs@),
                lv.len() >= self.transform.row_count,
                forall|i: int| 0 <= i < lv.len() ==> q_wf(#[trigger] lv[i]),
                wf_rat(rhs),
                eliminated.wf_vec(),
                eliminated.dimension == self.cols,
                row <= self.rows_m1,
                forall|c: int| 0 <= c < self.cols ==> q_eq(
                    #[trigger] eliminated.values()[c],
                    q_sub(
                        if c < self.cols_m1 { self.transformed_entry(lv, rhs@, self.nonbasics@[c] as int) } else { self.transformed_entry(lv, rhs@, tc - 1) },
                        q_dot(bv, self.table.column_values(c), row as nat),
                    ),
                ),
            decreases self.rows_m1 - row,
        {
            let x = transformed.get(self.basics[row]);
            let scaled = vec_scale(&self.table.get_row(row), x);
            let ghost before = eliminated.values();
            eliminated.sub_assign(&scaled);
            proof {
                eliminated.lemma_values_wf();
                scaled.lemma_values_wf();
                transformed.lemma_values_wf();
                let b = bv[row as int];
                let kb = self.basics@[row as int] as int;
                assert(b == self.transformed_entry(lv, rhs@, kb));
                assert(q_eq(x@, b));
                let tcol = self.transform.column_values(kb);
                assert forall|i: int| 0 <= i < tcol.len() implies q_wf(#[trigger] tcol[i]) by {
                    lemma_entry_wf(&*self.transform, i, kb);
                }
                lemma_q_dot_wf(lv, tcol, self.transform.row_count as nat);
                lemma_q_ops_wf(if kb == tc - 1 { rhs@ } else { q_int(0) }, q_dot(lv, tcol, self.transform.row_count as nat));
                assert(q_wf(b));
                assert forall|i: int| 0 <= i < bv.len() implies q_wf(#[trigger] bv[i]) by {
                    let ki = self.basics@[i] as int;
                    let tci = self.transform.column_values(ki);
                    assert forall|j: int| 0 <= j < tci.len() implies q_wf(#[trigger] tci[j]) by {
                        lemma_entry_wf(&*self.transform, j, ki);
                    }
                    lemma_q_dot_wf(lv, tci, self.transform.row_count as nat);
                    lemma_q_ops_wf(if ki == tc - 1 { rhs@ } else { q_int(0) }, q_dot(lv, tci, self.transform.row_count as nat));
                }
                assert forall|c: int| 0 <= c < self.cols implies q_eq(
                    #[trigger] eliminated.values()[c],
                    q_sub(
                        if c < self.cols_m1 { self.transformed_entry(lv, rhs@, self.nonbasics@[c] as int) } else { self.transformed_entry(lv, rhs@, tc - 1) },
                        q_dot(bv, self.table.column_values(c), (row + 1) as nat),
                    ),
                ) by {
                    let k = if c < self.cols_m1 { self.nonbasics@[c] as int } else { tc - 1 };
                    let own = self.transformed_entry(lv, rhs@, k);
                    let ccol = self.table.column_values(c);
                    let e = self.table.entry(row as int, c);
                    lemma_entry_wf(&self.table, row as int, c);
                    assert(ccol[row as int] == e);
                    assert(q_eq(scaled.values()[c], q_mul(e, x@)));
                    lemma_q_mul_cong(e, e, x@, b);
                    lemma_q_mul_comm(e, b);
                    lemma_q_ops_wf(e, x@);
                    lemma_q_ops_wf(e, b);
                    lemma_q_ops_wf(b, e);
                    lemma_q_eq_trans(scaled.values()[c], q_mul(e, x@), q_mul(e, b));
                    lemma_q_eq_trans(scaled.values()[c], q_mul(e, b), q_mul(b, e));
                    let tcol = self.transform.column_values(k);
                    assert forall|i: int| 0 <= i < tcol.len() implies q_wf(#[trigger] tcol[i]) by {
                        lemma_entry_wf(&*self.transform, i, k);
                    }
                    lemma_q_dot_wf(lv, tcol, self.transform.row_count as nat);
                    lemma_q_ops_wf(if k == tc - 1 { rhs@ } else { q_int(0) }, q_dot(lv, tcol, self.transform.row_count as nat));
                    assert forall|i: int| 0 <= i < ccol.len() implies q_wf(#[trigger] ccol[i]) by {
                        lemma_entry_wf(&self.table, i, c);
                    }
                    lemma_q_dot_wf(bv, ccol, row as nat);
                    lemma_q_sub_accumulate(eliminated.values()[c], before[c], scaled.values()[c], own, q_dot(bv, ccol, row as nat), q_mul(b, e));
                }
            }
            row = row + 1;
        }
        eliminated
    }

    /// The entries of the tableau row of a constraint have positive denominators.
    proof fn lemma_table_row_entry_wf(&self, lhs: Seq<Q>, rhs: Q, c: int)
        requires
            self.wf(),
            self.fits_transform(),
            lhs.len() >= self.transform.row_count,
            forall|i: int| 0 <= i < lhs.len() ==> q_wf(#[trigger] lhs[i]),
            q_wf(rhs),
            0 <= c < self.cols,
        ensures
            q_wf(self.table_row_entry(lhs, rhs, c)),
    {
        let tc = self.transform.column_count as int;
        assert forall|k: int| 0 <= k < tc implies q_wf(#[trigger] self.transformed_entry(lhs, rhs, k)) by {
            let tcol = self.transform.column_values(k);
            assert forall|i: int| 0 <= i < tcol.len() implies q_wf(#[trigger] tcol[i]) by {
                lemma_entry_wf(&*self.transform, i, k);
            }
            lemma_q_dot_wf(lhs, tcol, self.transform.row_count as nat);
            lemma_q_ops_wf(if k == tc - 1 { rhs } else { q_int(0) }, q_dot(lhs, tcol, self.transform.row_count as nat));
        }
        let bv = self.basic_entries(lhs, rhs);
        assert forall|i: int| 0 <= i < bv.len() implies q_wf(#[trigger] bv[i]) by {
            assert(q_wf(self.transformed_entry(lhs, rhs, self.basics@[i] as int)));
        }
        let ccol = self.table.column_values(c);
        assert forall|i: int| 0 <= i < ccol.len() implies q_wf(#[trigger] ccol[i]) by {
            lemma_entry_wf(&self.table, i, c);
        }
        lemma_q_dot_wf(bv, ccol, self.rows_m1 as nat);
        let k = if c < self.cols_m1 { self.nonbasics@[c] as int } else { tc - 1 };
        assert(q_wf(self.transformed_entry(lhs, rhs, k)));
        lemma_q_ops_wf(self.transformed_entry(lhs, rhs, k), q_dot(bv, ccol, self.rows_m1 as nat));
    }

    /// The maximum of `gradient . x` over the constraints: the negated minimum of
    /// `-gradient . x`, read from the corner of the optimal tableau. `None` where the
    /// objective is unbounded (or the simplex does not end within 2^64 - 1 steps).
    pub fn maximize(&mut self, gradient: &ViewBigVector) -> (r: Option<BigRational>)
        requires
            old(self).wf(),
            old(self).fits_transform(),
            gradient.wf_vec(),
            gradient.values().len() >= old(self).variables(),
        ensures
            final(self).wf(),
            final(self).transform == old(self).transform,
            final(self).rows == old(self).rows,
            final(self).cols == old(self).cols,
            r matches Some(v) ==> wf_rat(v) && final(self).optimal() && v@ == q_neg(
                final(self).table.entry(final(self).rows_m1 as int, final(self).cols_m1 as int),
            ),
            old(self).feasible() ==> final(self).feasible(),
            exists|g: Seq<Q>, start: Optimize, n: nat|
                #![trigger old(self).starts_from(start, g), steps_to(start, *final(self), n)]
                q_eq_seq(g, q_seq_scale(gradient.values(), q_int(-1))) && old(self).starts_from(start, g) && steps_to(
                    start,
                    *final(self),
                    n,
                ),
            r is None ==> exists|g: Seq<Q>, start: Optimize, n: nat|
                #![trigger old(self).starts_from(start, g), steps_to(start, *final(self), n)]
                q_eq_seq(g, q_seq_scale(gradient.values(), q_int(-1))) && old(self).starts_from(start, g) && steps_to(
                    start,
                    *final(self),
                    n,
                ) && (final(self).unbounded() || n >= 0xFFFF_FFFF_FFFF_FFFF),
    {
        let minus_one = BigRational::from_i64(-1);
        let negated = vec_scale(gradient, &minus_one);
        let view = negated.as_view();
        match self.minimize(&view) {
            Some(result) => Some(result.neg()),
            None => None,
        }
    }

    /// The minimum of `gradient . x` over the constraints: the objective row is set from the
    /// gradient (see [Optimize::starts_from]), the simplex runs until no objective coefficient
    /// is positive, and the minimum is the corner of that tableau. Each step keeps the basic
    /// solution feasible. `None` where the objective is unbounded (or the simplex does not
    /// end within 2^64 - 1 steps).
    pub fn minimize(&mut self, gradient: &ViewBigVector) -> (r: Option<BigRational>)
        requires
            old(self).wf(),
            old(self).fits_transform(),
            gradient.wf_vec(),
            gradient.values().len() >= old(self).variables(),
        ensures
            final(self).wf(),
            final(self).transform == old(self).transform,
            final(self).rows == old(self).rows,
            final(self).cols == old(self).cols,
            r matches Some(v) ==> wf_rat(v) && final(self).optimal() && v@ == final(self).table.entry(
                final(self).rows_m1 as int,
                final(self).cols_m1 as int,
            ),
            old(self).feasible() ==> final(self).feasible(),
            exists|start: Optimize, n: nat|
                old(self).starts_from(start, gradient.values()) && #[trigger] steps_to(start, *final(self), n),
            r is None ==> exists|start: Optimize, n: nat|
                old(self).starts_from(start, gradient.values()) && #[trigger] steps_to(start, *final(self), n) && (
                final(self).unbounded() || n >= 0xFFFF_FFFF_FFFF_FFFF),
    {
        let mut temp = OwnedBigVector::new(self.cols);
        let transformed = self.transform_for_table(gradient, BigRational::zero());
        let ghost zero_row = temp.values();
        temp.sub_assign(&transformed);
        proof {
            lemma_mat_index(self.rows as int, self.cols as int, self.rows_m1 as int, self.cols_m1 as int);
            assert(temp.dimension == temp.values().len());
        }
        let ghost before = self.table;
        self.table.set_row(self.rows_m1, temp);
        proof {
            assert forall|r: int| 0 <= r < self.rows_m1 implies #[trigger] self.table.entry(r, self.cols_m1 as int)
                == before.entry(r, self.cols_m1 as int) by {
                lemma_mat_index(self.rows_m1 as int, self.cols as int, r, self.cols_m1 as int);
                lemma_mat_index(self.rows as int, self.cols as int, r, self.cols_m1 as int);
                assert(self.table.values()[self.cols_m1 + self.cols * r] == before.values()[self.cols_m1 + self.cols * r]);
            }
            assert forall|r: int, c: int| 0 <= r < self.rows_m1 && 0 <= c < self.cols implies #[trigger] self.table.entry(r, c)
                == before.entry(r, c) by {
                lemma_mat_index(self.rows_m1 as int, self.cols as int, r, c);
                lemma_mat_index(self.rows as int, self.cols as int, r, c);
                assert(self.table.values()[c + self.cols * r] == before.values()[c + self.cols * r]);
            }
            transformed.lemma_values_wf();
            assert forall|c: int| 0 <= c < self.cols implies q_eq(
                #[trigger] self.objective(c),
                q_neg(old(self).table_row_entry(gradient.values(), q_int(0), c)),
            ) by {
                lemma_mat_index(self.rows as int, self.cols as int, self.rows_m1 as int, c);
                assert(self.table.values()[c + self.cols * self.rows_m1] == temp.values()[c]);
                let tr = transformed.values()[c];
                let te = old(self).table_row_entry(gradient.values(), q_int(0), c);
                assert(zero_row[c] == q_int(0));
                assert(q_eq(temp.values()[c], q_sub(q_int(0), tr)));
                lemma_q_sub_int_zero(tr);
                lemma_q_eq_trans(temp.values()[c], q_sub(q_int(0), tr), q_neg(tr));
                lemma_q_neg_cong(tr, te);
                lemma_q_eq_trans(temp.values()[c], q_neg(tr), q_neg(te));
            }
            assert(old(self).starts_from(*self, gradient.values()));
        }
        let ghost start = *self;
        if !self.solve() {
            return None;
        }
        proof {
            lemma_mat_index(self.rows as int, self.cols as int, self.rows_m1 as int, self.cols_m1 as int);
        }
        Some(self.table.get(self.rows_m1, self.cols_m1).clone())
    }

    /// Runs simplex steps until the tableau is optimal: `true` then. `false` where a step
    /// finds the objective unbounded, or 2^64 - 1 steps do not reach the optimum.
    fn solve(&mut self) -> (r: bool)
        requires
            old(self).wf(),
        ensures
            final(self).wf(),
            final(self).transform == old(self).transform,
            final(self).rows == old(self).rows,
            final(self).cols == old(self).cols,
            final(self).basics.len() == old(self).basics.len(),
            final(self).nonbasics.len() == old(self).nonbasics.len(),
            r ==> final(self).optimal(),
            old(self).feasible() ==> final(self).feasible() && !q_lt(old(self).corner(), final(self).corner()),
            exists|n: nat|
                #[trigger] steps_to(*old(self), *final(self), n) && (!r ==> final(self).unbounded() || n >= 0xFFFF_FFFF_FFFF_FFFF),
    {
        let mut budget: u64 = u64::MAX;
        let ghost mut n: nat = 0;
        proof {
            assert(steps_to(*self, *self, 0));
        }
        proof {
            lemma_entry_wf(&self.table, self.rows_m1 as int, self.cols_m1 as int);
            assert(!q_lt(self.corner(), self.corner())) by (nonlinear_arith)
                requires
                    self.corner().d > 0,
            ;
        }
        while budget > 0
            invariant
                self.wf(),
                self.transform == old(self).transform,
                self.rows == old(self).rows,
                self.cols == old(self).cols,
                self.basics.len() == old(self).basics.len(),
                self.nonbasics.len() == old(self).nonbasics.len(),
                q_wf(old(self).corner()),
                old(self).feasible() ==> self.feasible() && !q_lt(old(self).corner(), self.corner()),
                steps_to(*old(self), *self, n),
                n + budget == 0xFFFF_FFFF_FFFF_FFFF,
            decreases budget,
        {
            budget = budget - 1;
            let ghost before = *self;
            match self.step() {
                Some(true) => {
                    proof {
                        let (e, x) = choose|e: int, x: int|
                            before.entering_column(e) && #[trigger] before.exiting_row(e, x) && before.pivoted(*self, e, x);
                        assert(steps_to(*old(self), *self, n + 1));
                        n = n + 1;
                        if old(self).feasible() {
                            let (e, x) = choose|e: int, x: int|
                                before.entering_column(e) && #[trigger] before.exiting_row(e, x) && before.pivoted(*self, e, x);
                            lemma_step_keeps_feasible(before, *self, e, x);
                            lemma_entry_wf(&before.table, before.rows_m1 as int, before.cols_m1 as int);
                            lemma_entry_wf(&self.table, self.rows_m1 as int, self.cols_m1 as int);
                            lemma_q_le_trans(self.corner(), before.corner(), old(self).corner());
                        }
                    }
                },
                Some(false) => {
                    return true;
                },
                None => {
                    proof {
                        let e = choose|e: int| #[trigger] before.entering_column(e) && forall|x: int|
                            0 <= x < before.rows_m1 ==> (#[trigger] before.table.entry(x, e)).n <= 0;
                        assert(before.objective(e).n > 0);
                        assert(!self.optimal());
                    }
                    return false;
                },
            }
        }
        false
    }

    /// One simplex step: the entering column is the one with the largest positive objective
    /// coefficient (the first such under Bland's rule, used when a right-hand side is zero),
    /// the exiting row the one of smallest ratio; pivots and returns `Some(true)`.
    /// `Some(false)` when no objective coefficient is positive (optimal); `None` when the
    /// entering column has no positive entry (unbounded). From a feasible tableau the step
    /// keeps every right-hand side non-negative and does not raise the corner.
    fn step(&mut self) -> (r: Option<bool>)
        requires
            old(self).wf(),
        ensures
            final(self).wf(),
            final(self).transform == old(self).transform,
            final(self).rows == old(self).rows,
            final(self).cols == old(self).cols,
            final(self).basics.len() == old(self).basics.len(),
            final(self).nonbasics.len() == old(self).nonbasics.len(),
            (r == Some(false)) == old(self).optimal(),
            r != Some(true) ==> *final(self) == *old(self),
            r is None ==> exists|e: int|
                #[trigger] old(self).entering_column(e) && forall|x: int|
                    0 <= x < old(self).rows_m1 ==> (#[trigger] old(self).table.entry(x, e)).n <= 0,
            r == Some(true) ==> exists|e: int, x: int|
                old(self).entering_column(e) && #[trigger] old(self).exiting_row(e, x) && old(self).pivoted(*final(self), e, x),
            old(self).feasible() ==> final(self).feasible() && !q_lt(old(self).corner(), final(self).corner()),
    {
        let rows = self.rows;
        let cols = self.cols;
        let mut bland = false;
        let mut entering: usize = cols;
        let mut exiting: usize = rows;
        let mut candidate = BigRational::zero();
        let mut row: usize = 0;
        while row < self.rows_m1
            invariant_except_break
                !bland,
            invariant
                self.wf(),
                *self == *old(self),
                rows == self.rows,
                cols == self.cols,
                row <= self.rows_m1,
                forall|r: int| 0 <= r < row ==> (#[trigger] self.table.entry(r, self.cols_m1 as int)).n != 0,
            ensures
                bland == self.degenerate(),
            decreases self.rows_m1 - row,
        {
            proof {
                lemma_mat_index(rows as int, cols as int, row as int, self.cols_m1 as int);
            }
            if self.table.get(row, self.cols_m1).is_zero() {
                bland = true;
                break;
            }
            row = row + 1;
        }
        let mut col: usize = 0;
        while col < self.cols_m1
            invariant_except_break
                bland ==> entering == cols,
            invariant
                self.wf(),
                *self == *old(self),
                rows == self.rows,
                cols == self.cols,
                col <= self.cols_m1,
                bland == self.degenerate(),
                wf_rat(candidate),
                entering == cols || entering < col,
                entering == cols ==> forall|c: int| 0 <= c < col ==> (#[trigger] self.objective(c)).n <= 0,
                entering < cols ==> self.objective(entering as int).n > 0 && candidate@ == self.objective(entering as int),
                entering < cols && bland ==> forall|c: int| 0 <= c < entering ==> (#[trigger] self.objective(c)).n <= 0,
                entering < cols && !bland ==> forall|c: int|
                    0 <= c < col && (#[trigger] self.objective(c)).n > 0 ==> !q_lt(self.objective(entering as int), self.objective(c))
                        && (c < entering ==> q_lt(self.objective(c), self.objective(entering as int))),
            ensures
                entering == cols ==> self.optimal(),
                entering < cols ==> self.entering_column(entering as int),
            decreases self.cols_m1 - col,
        {
            proof {
                lemma_mat_index(rows as int, cols as int, self.rows_m1 as int, col as int);
            }
            let x = self.table.get(self.rows_m1, col);
            if x.is_positive() && (entering == cols || rat_lt(&candidate, x)) {
                proof {
                    if entering < cols && !bland {
                        let e = entering as int;
                        assert forall|c: int| 0 <= c < col + 1 && (#[trigger] self.objective(c)).n > 0 implies !q_lt(
                            self.objective(col as int),
                            self.objective(c),
                        ) && (c < col ==> q_lt(self.objective(c), self.objective(col as int))) by {
                            if c < col {
                                lemma_entry_wf(&self.table, self.rows_m1 as int, c);
                                lemma_entry_wf(&self.table, self.rows_m1 as int, e);
                                lemma_entry_wf(&self.table, self.rows_m1 as int, col as int);
                                lemma_q_le_lt_trans(self.objective(c), self.objective(e), self.objective(col as int));
                            }
                        }
                    }
                }
                entering = col;
                candidate = x.clone();
                if bland {
                    col = col + 1;
                    break;
                }
            }
            col = col + 1;
        }
        if entering == cols {
            return Some(false);
        }
        let ghost e = entering as int;
        let mut row: usize = 0;
        while row < self.rows_m1
            invariant
                self.wf(),
                *self == *old(self),
                rows == self.rows,
                cols == self.cols,
                entering < self.cols_m1,
                e == entering,
                self.entering_column(e),
                row <= self.rows_m1,
                wf_rat(candidate),
                exiting == rows ==> forall|r: int| 0 <= r < row ==> (#[trigger] self.table.entry(r, e)).n <= 0,
                exiting < rows ==> exiting < row && self.table.entry(exiting as int, e).n > 0 && q_eq(
                    candidate@,
                    self.ratio(exiting as int, e),
                ),
                exiting < rows ==> forall|r: int|
                    0 <= r < row && (#[trigger] self.table.entry(r, e)).n > 0 ==> !q_lt(self.ratio(r, e), self.ratio(exiting as int, e))
                        && (r < exiting ==> q_lt(self.ratio(exiting as int, e), self.ratio(r, e))),
                exiting == rows || exiting < self.rows_m1,
            decreases self.rows_m1 - row,
        {
            proof {
                lemma_mat_index(rows as int, cols as int, row as int, entering as int);
                lemma_mat_index(rows as int, cols as int, row as int, self.cols_m1 as int);
            }
            let x = self.table.get(row, entering);
            if x.is_positive() {
                let y = rat_div(self.table.get(row, self.cols_m1), x);
                proof {
                    lemma_entry_wf(&self.table, row as int, e);
                    lemma_entry_wf(&self.table, row as int, self.cols_m1 as int);
                    lemma_q_ops_wf(self.table.entry(row as int, self.cols_m1 as int), self.table.entry(row as int, e));
                    if exiting < rows {
                        let xe = exiting as int;
                        lemma_entry_wf(&self.table, xe, e);
                        lemma_entry_wf(&self.table, xe, self.cols_m1 as int);
                        lemma_q_ops_wf(self.table.entry(xe, self.cols_m1 as int), self.table.entry(xe, e));
                        lemma_q_lt_cong(y@, self.ratio(row as int, e), candidate@, self.ratio(xe, e));
                    }
                }
                if exiting == rows || rat_lt(&y, &candidate) {
                    proof {
                        if exiting < rows {
                            let xe = exiting as int;
                            assert forall|r: int| 0 <= r < row + 1 && (#[trigger] self.table.entry(r, e)).n > 0 implies !q_lt(
                                self.ratio(r, e),
                                self.ratio(row as int, e),
                            ) && (r < row ==> q_lt(self.ratio(row as int, e), self.ratio(r, e))) by {
                                if r < row {
                                    lemma_entry_wf(&self.table, r, e);
                                    lemma_entry_wf(&self.table, r, self.cols_m1 as int);
                                    lemma_q_ops_wf(self.table.entry(r, self.cols_m1 as int), self.table.entry(r, e));
                                    lemma_q_lt_le_trans(self.ratio(row as int, e), self.ratio(xe, e), self.ratio(r, e));
                                }
                            }
                        }
                    }
                    exiting = row;
                    candidate = y;
                }
            }
            row = row + 1;
        }
        if exiting == rows {
            return None;
        }
        let ghost before = *self;
        self.pivot(entering, exiting);
        proof {
            assert(before.exiting_row(e, exiting as int));
            if before.feasible() {
                lemma_step_keeps_feasible(before, *self, e, exiting as int);
            }
        }
        Some(true)
    }

    /// Exchanges the nonbasic variable of column `entering` with the basic one of row
    /// `exiting`, around the nonzero pivot `p` at their crossing: the pivot row is divided by
    /// `p`, every other row `r` loses `T[r][entering]` times the new pivot row, the pivot
    /// column becomes `-T[r][entering] / p`, and the pivot itself `1 / p`.
    fn pivot(&mut self, entering: usize, exiting: usize)
        requires
            old(self).wf(),
            entering < old(self).cols_m1,
            exiting < old(self).rows_m1,
            old(self).table.entry(exiting as int, entering as int).n != 0,
        ensures
            old(self).pivoted(*final(self), entering as int, exiting as int),
    {
        let rows = self.rows;
        let cols = self.cols;
        let ghost t0 = self.table;
        proof {
            lemma_mat_index(rows as int, cols as int, exiting as int, entering as int);
        }
        let pivot = self.table.get(exiting, entering).clone();
        let mut col: usize = 0;
        while col < cols
            invariant
                self.wf(),
                rows == self.rows,
                cols == self.cols,
                self.transform == old(self).transform,
                self.basics == old(self).basics,
                self.nonbasics == old(self).nonbasics,
                entering < self.cols_m1,
                exiting < self.rows_m1,
                col <= cols,
                t0 == old(self).table,
                wf_rat(pivot),
                pivot@ == t0.entry(exiting as int, entering as int),
                pivot@.n != 0,
                forall|c: int|
                    0 <= c < col && c != entering ==> q_eq(#[trigger] self.table.entry(exiting as int, c), q_div(t0.entry(exiting as int, c), pivot@)),
                forall|r: int, c: int|
                    0 <= r < rows && 0 <= c < cols && !(r == exiting && c < col && c != entering) ==> #[trigger] self.table.entry(r, c)
                        == t0.entry(r, c),
            decreases cols - col,
        {
            if col != entering {
                proof {
                    lemma_mat_index(rows as int, cols as int, exiting as int, col as int);
                }
                let v = rat_div(self.table.get(exiting, col), &pivot);
                self.table.set(exiting, col, v);
            }
            col = col + 1;
        }
        let ghost t1 = self.table;
        let mut row: usize = 0;
        while row < rows
            invariant
                self.wf(),
                rows == self.rows,
                cols == self.cols,
                self.transform == old(self).transform,
                self.basics == old(self).basics,
                self.nonbasics == old(self).nonbasics,
                entering < self.cols_m1,
                exiting < self.rows_m1,
                row <= rows,
                t1.wf(),
                t1.row_count == rows,
                t1.column_count == cols,
                wf_rat(pivot),
                pivot@ == t0.entry(exiting as int, entering as int),
                pivot@.n != 0,
                forall|c: int| 0 <= c < cols ==> #[trigger] self.table.entry(exiting as int, c) == t1.entry(exiting as int, c),
                forall|r: int, c: int|
                    0 <= r < row && r != exiting && 0 <= c < cols && c != entering ==> q_eq(
                        #[trigger] self.table.entry(r, c),
                        q_sub(t1.entry(r, c), q_mul(t1.entry(r, entering as int), t1.entry(exiting as int, c))),
                    ),
                forall|r: int|
                    0 <= r < row && r != exiting ==> q_eq(
                        #[trigger] self.table.entry(r, entering as int),
                        q_neg(q_div(t1.entry(r, entering as int), pivot@)),
                    ),
                forall|r: int, c: int| row <= r < rows && 0 <= c < cols ==> #[trigger] self.table.entry(r, c) == t1.entry(r, c),
            decreases rows - row,
        {
            if row != exiting {
                proof {
                    lemma_mat_index(rows as int, cols as int, row as int, entering as int);
                }
                let x = self.table.get(row, entering).clone();
                let mut col: usize = 0;
                while col < cols
                    invariant
                        self.wf(),
                        rows == self.rows,
                        cols == self.cols,
                        self.transform == old(self).transform,
                        self.basics == old(self).basics,
                        self.nonbasics == old(self).nonbasics,
                        entering < self.cols_m1,
                        exiting < self.rows_m1,
                        row < rows,
                        row != exiting,
                        col <= cols,
                        t1.wf(),
                        t1.row_count == rows,
                        t1.column_count == cols,
                        wf_rat(x),
                        x@ == t1.entry(row as int, entering as int),
                        forall|c: int| 0 <= c < cols ==> #[trigger] self.table.entry(exiting as int, c) == t1.entry(exiting as int, c),
                        forall|r: int, c: int|
                            0 <= r < row && r != exiting && 0 <= c < cols && c != entering ==> q_eq(
                                #[trigger] self.table.entry(r, c),
                                q_sub(t1.entry(r, c), q_mul(t1.entry(r, entering as int), t1.entry(exiting as int, c))),
                            ),
                        forall|r: int|
                            0 <= r < row && r != exiting ==> q_eq(
                                #[trigger] self.table.entry(r, entering as int),
                                q_neg(q_div(t1.entry(r, entering as int), pivot@)),
                            ),
                        forall|c: int|
                            0 <= c < col && c != entering ==> q_eq(
                                #[trigger] self.table.entry(row as int, c),
                                q_sub(t1.entry(row as int, c), q_mul(x@, t1.entry(exiting as int, c))),
                            ),
                        forall|r: int, c: int|
                            row <= r < rows && 0 <= c < cols && !(r == row && c < col && c != entering) ==> #[trigger] self.table.entry(r, c)
                                == t1.entry(r, c),
                        wf_rat(pivot),
                        pivot@ == t0.entry(exiting as int, entering as int),
                        pivot@.n != 0,
                    decreases cols - col,
                {
                    if col != entering {
                        proof {
                            lemma_mat_index(rows as int, cols as int, row as int, col as int);
                            lemma_mat_index(rows as int, cols as int, exiting as int, col as int);
                        }
                        let p = rat_mul(&x, self.table.get(exiting, col));
                        let v = rat_sub(self.table.get(row, col), &p);
                        proof {
                            let a = t1.entry(row as int, col as int);
                            let b = q_mul(x@, t1.entry(exiting as int, col as int));
                            crate::math::component::rational::lemma_q_sub_cong(a, a, p@, b);
                            crate::math::component::rational::lemma_q_ops_wf(a, p@);
                            crate::math::component::rational::lemma_q_eq_trans(v@, q_sub(a, p@), q_sub(a, b));
                        }
                        self.table.set(row, col, v);
                    }
                    col = col + 1;
                }
                let q = rat_div(&x, &pivot);
                let v = q.neg();
                proof {
                    crate::math::component::rational::lemma_q_neg_cong(q@, q_div(x@, pivot@));
                }
                self.table.set(row, entering, v);
            }
            row = row + 1;
        }
        let one = BigRational::one();
        let reciprocal = rat_div(&one, &pivot);
        let ghost t2 = self.table;
        proof {
            lemma_mat_index(rows as int, cols as int, exiting as int, entering as int);
        }
        self.table.set(exiting, entering, reciprocal);
        let new_basic = self.nonbasics[entering];
        let old_basic = self.basics[exiting];
        self.nonbasics.set(entering, old_basic);
        self.basics.set(exiting, new_basic);
        proof {
            assert forall|c: int| 0 <= c < cols && c != entering implies #[trigger] self.table.entry(exiting as int, c)
                == t1.entry(exiting as int, c) by {
                assert(t2.entry(exiting as int, c) == t1.entry(exiting as int, c));
            }
            assert forall|r: int, c: int| 0 <= r < rows && r != exiting && 0 <= c < cols implies #[trigger] t1.entry(r, c)
                == t0.entry(r, c) by {
            }
        }
    }

    /// A copy of the tableau, with as many basic variables as constraint rows and nonbasic
    /// ones as variable columns.
    pub fn copy(&self) -> (o: Optimize)
        requires
            self.wf(),
        ensures
            copy_of(*self, o),
    {
        let basics = copy_of_usizes(&self.basics, self.rows_m1);
        let nonbasics = copy_of_usizes(&self.nonbasics, self.cols_m1);
        proof {
            assert(basics@ =~= self.basics@.take(self.rows_m1 as int));
            assert(nonbasics@ =~= self.nonbasics@.take(self.cols_m1 as int));
        }
        Optimize::new(self.table.copy(), basics, nonbasics, share(&self.transform))
    }

    /// The constraints with one more: `lhs . x = rhs` on the problem variables, as a row
    /// whose right-hand side is made non-negative (see [Optimize::bound_table]), with an
    /// artificial basic variable that the first phase of [Optimize::from] drives out. `None`
    /// where that phase fails.
    pub fn with_strict_bound(&self, lhs: &ViewBigVector, rhs: BigRational) -> (o: Option<Optimize>)
        requires
            self.wf(),
            self.fits_transform(),
            lhs.wf_vec(),
            lhs.values().len() >= self.variables(),
            wf_rat(rhs),
            (self.rows + 1) * self.cols <= usize::MAX,
            self.cols >= 2,
        ensures
            o matches Some(r) ==> {
                &&& r.wf()
                &&& r.transform == self.transform
                &&& r.rows == self.rows + 1
                &&& r.cols == self.cols - 1
                &&& forall|c: int| 0 <= c < r.cols ==> (#[trigger] r.objective(c)).n == 0
                &&& self.strict_bound_result(lhs.values(), rhs@, r)
            },
            o is None ==> self.strict_bound_fails(lhs.values(), rhs@),
    {
        let rows = self.rows;
        let cols = self.cols;
        proof {
            assert(rows + 1 <= (rows + 1) * cols) by (nonlinear_arith)
                requires
                    cols >= 1,
            ;
            assert(self.rows_m1 + self.cols_m1 <= rows * cols) by (nonlinear_arith)
                requires
                    rows >= 1,
                    cols >= 1,
                    self.rows_m1 == rows - 1,
                    self.cols_m1 == cols - 1,
            ;
        }
        let mut new_table = BigMatrix::new(rows + 1, cols);
        proof {
            assert forall|r: int, c: int| 0 <= r <= rows && 0 <= c < cols implies #[trigger] new_table.entry(r, c) == q_int(0) by {
                lemma_mat_index((rows + 1) as int, cols as int, r, c);
            }
        }
        let mut row: usize = 0;
        while row < self.rows_m1
            invariant
                self.wf(),
                rows == self.rows,
                cols == self.cols,
                (rows + 1) * cols <= usize::MAX,
                new_table.wf(),
                new_table.row_count == rows + 1,
                new_table.column_count == cols,
                row <= self.rows_m1,
                forall|r: int, c: int| 0 <= r < row && 0 <= c < cols ==> #[trigger] new_table.entry(r, c) == self.table.entry(r, c),
                forall|r: int, c: int| row <= r <= rows && 0 <= c < cols ==> #[trigger] new_table.entry(r, c) == q_int(0),
            decreases self.rows_m1 - row,
        {
            let r = self.table.get_row(row).to_owned();
            let ghost nt0 = new_table;
            proof {
                lemma_mat_index((rows + 1) as int, cols as int, row as int, (cols - 1) as int);
                assert(r.dimension == r.values().len());
            }
            new_table.set_row(row, r);
            proof {
                assert forall|rr: int, c: int| 0 <= rr <= rows && 0 <= c < cols implies #[trigger] new_table.entry(rr, c)
                    == if rr == row { self.table.entry(rr, c) } else { nt0.entry(rr, c) } by {
                    lemma_mat_index((rows + 1) as int, cols as int, rr, c);
                    lemma_mat_index((rows + 1) as int, cols as int, row as int, c);
                    assert(new_table.values()[c + cols * rr] == new_table.entry(rr, c));
                    if rr == row {
                        assert(r.values()[c] == self.table.entry(rr, c));
                    } else if rr < row {
                        assert(c + cols * rr < cols * row) by (nonlinear_arith)
                            requires
                                rr < row,
                                0 <= c < cols,
                        ;
                    } else {
                        assert(c + cols * rr >= cols * row + cols) by (nonlinear_arith)
                            requires
                                rr > row,
                                0 <= c < cols,
                        ;
                    }
                }
            }
            row = row + 1;
        }
        let bound_row = self.transform_for_table(lhs, rhs);
        proof {
            lemma_mat_index((rows + 1) as int, cols as int, self.rows_m1 as int, (cols - 1) as int);
        }
        let ghost nt1 = new_table;
        new_table.set_row(self.rows_m1, bound_row);
        proof {
            lemma_mat_index((rows + 1) as int, cols as int, self.rows_m1 as int, self.cols_m1 as int);
            let m = self.rows_m1 as int;
            assert forall|rr: int, c: int| 0 <= rr <= rows && 0 <= c < cols implies #[trigger] new_table.entry(rr, c)
                == if rr == m { bound_row.values()[c] } else { nt1.entry(rr, c) } by {
                lemma_mat_index((rows + 1) as int, cols as int, rr, c);
                lemma_mat_index((rows + 1) as int, cols as int, m, c);
                if rr < m {
                    assert(c + cols * rr < cols * m) by (nonlinear_arith)
                        requires
                            rr < m,
                            0 <= c < cols,
                    ;
                } else if rr > m {
                    assert(c + cols * rr >= cols * m + cols) by (nonlinear_arith)
                        requires
                            rr > m,
                            0 <= c < cols,
                    ;
                }
            }
        }
        let ghost nt2 = new_table;
        let negative = new_table.get(self.rows_m1, self.cols_m1).is_negative();
        if negative {
            let minus_one = BigRational::from_i64(-1);
            new_table.row_mul_assign(self.rows_m1, &minus_one);
        }
        proof {
            let m = self.rows_m1 as int;
            let lv = lhs.values();
            lhs.lemma_values_wf();
            bound_row.lemma_values_wf();
            self.lemma_table_row_entry_wf(lv, rhs@, self.cols_m1 as int);
            let e_last = self.table_row_entry(lv, rhs@, self.cols_m1 as int);
            let xl = bound_row.values()[self.cols_m1 as int];
            assert(q_eq(xl, e_last));
            assert(q_wf(xl));
            assert(nt2.entry(m, self.cols_m1 as int) == xl);
            assert(negative == (xl.n < 0));
            lemma_q_lt_cong(xl, e_last, q_int(0), q_int(0));
            assert(q_lt(xl, q_int(0)) == (xl.n < 0));
            assert(q_lt(e_last, q_int(0)) == (e_last.n < 0));
            assert(negative == (e_last.n < 0));
            assert forall|c: int| 0 <= c < cols implies q_eq(
                #[trigger] new_table.entry(m, c),
                if e_last.n < 0 { q_neg(self.table_row_entry(lv, rhs@, c)) } else { self.table_row_entry(lv, rhs@, c) },
            ) by {
                let x = bound_row.values()[c];
                let e = self.table_row_entry(lv, rhs@, c);
                self.lemma_table_row_entry_wf(lv, rhs@, c);
                if negative {
                    assert(q_eq(new_table.entry(m, c), q_mul(x, q_int(-1))));
                    lemma_q_mul_minus_one(x);
                    lemma_q_ops_wf(x, q_int(-1));
                    lemma_q_eq_trans(new_table.entry(m, c), q_mul(x, q_int(-1)), q_neg(x));
                    lemma_q_neg_cong(x, e);
                    lemma_q_eq_trans(new_table.entry(m, c), q_neg(x), q_neg(e));
                }
            }
            assert(self.bound_table(lv, rhs@, new_table));
        }
        let mut new_basics = copy_of_usizes(&self.basics, rows);
        let new_nonbasics = copy_of_usizes(&self.nonbasics, self.cols_m1);
        new_basics.set(self.rows_m1, self.rows_m1 + self.cols_m1);
        let ghost bt = new_table;
        let o = Self::from(new_table, new_basics, new_nonbasics, 1, share(&self.transform));
        proof {
            assert(self.bound_table(lhs.values(), rhs@, bt));
        }
        o
    }

    /// The tableau after a first simplex phase that drives the `artificials` last variables
    /// out (see [phase_one]): their rows are added to the objective, the simplex runs, the
    /// basic artificials left are pivoted out where a real nonbasic column allows, and the
    /// columns of the artificial nonbasic variables are dropped; the objective row is left
    /// zero. `None` exactly where [phase_one_fails]: the simplex does not reach its optimum,
    /// or too few real nonbasic columns remain to fill the new table.
    pub fn from(
        table: BigMatrix,
        basics: Vec<usize>,
        nonbasics: Vec<usize>,
        artificials: usize,
        transform: Arc<BigMatrix>,
    ) -> (o: Option<Optimize>)
        requires
            table.wf(),
            table.row_count >= 1,
            artificials < table.column_count,
            artificials <= (table.row_count - 1) + (table.column_count - 1),
            basics.len() >= table.row_count - 1,
            nonbasics.len() == table.column_count - 1,
            transform.wf(),
        ensures
            o matches Some(r) ==> {
                &&& r.wf()
                &&& r.transform == transform
                &&& r.table.row_count == table.row_count
                &&& r.table.column_count == table.column_count - artificials
                &&& forall|i: int|
                    0 <= i < r.cols_m1 ==> #[trigger] r.nonbasics@[i] < (table.row_count - 1) + (table.column_count - 1) - artificials
                &&& forall|c: int| 0 <= c < r.cols ==> (#[trigger] r.objective(c)).n == 0
                &&& phase_one(table, basics@, nonbasics@, artificials as int, transform, r)
            },
            o is None ==> phase_one_fails(table, basics@, nonbasics@, artificials as int),
    {
        let ghost t0 = table;
        let ghost b0 = basics@;
        let ghost nb0 = nonbasics@;
        let mut work = table;
        let rows = work.row_count;
        let rows_m1 = rows - 1;
        let cols = work.column_count;
        let cols_m1 = cols - 1;
        proof {
            assert(rows_m1 + cols_m1 <= rows * cols) by (nonlinear_arith)
                requires
                    rows >= 1,
                    cols >= 1,
                    rows_m1 == rows - 1,
                    cols_m1 == cols - 1,
            ;
        }
        let real_variables = rows_m1 + cols_m1 - artificials;
        let ghost ind = artificial_rows(b0, rows_m1 as nat, real_variables as int);
        proof {
            assert forall|c: int| 0 <= c < cols implies q_eq(
                #[trigger] work.entry(rows_m1 as int, c),
                q_add(t0.entry(rows_m1 as int, c), q_dot(ind, t0.column_values(c), 0)),
            ) by {
                lemma_entry_wf(&t0, rows_m1 as int, c);
                lemma_q_sub_int_zero(t0.entry(rows_m1 as int, c));
            }
        }
        let mut basic_row: usize = 0;
        while basic_row < rows_m1
            invariant
                work.wf(),
                t0.wf(),
                work.row_count == rows,
                work.column_count == cols,
                t0.row_count == rows,
                t0.column_count == cols,
                rows_m1 == rows - 1,
                basics.len() >= rows_m1,
                basics@ == b0,
                basic_row <= rows_m1,
                ind == artificial_rows(b0, rows_m1 as nat, real_variables as int),
                forall|r: int, c: int| 0 <= r < rows_m1 && 0 <= c < cols ==> #[trigger] work.entry(r, c) == t0.entry(r, c),
                forall|c: int| 0 <= c < cols ==> q_eq(
                    #[trigger] work.entry(rows_m1 as int, c),
                    q_add(t0.entry(rows_m1 as int, c), q_dot(ind, t0.column_values(c), basic_row as nat)),
                ),
            decreases rows_m1 - basic_row,
        {
            let ghost tb = work;
            proof {
                assert forall|c: int| 0 <= c < cols implies q_wf(#[trigger] t0.column_values(c)[basic_row as int])
                    && q_wf(q_dot(ind, t0.column_values(c), basic_row as nat)) && q_wf(tb.entry(rows_m1 as int, c)) by {
                    let col = t0.column_values(c);
                    assert forall|i: int| 0 <= i < col.len() implies q_wf(#[trigger] col[i]) by {
                        lemma_entry_wf(&t0, i, c);
                    }
                    assert forall|i: int| 0 <= i < ind.len() implies q_wf(#[trigger] ind[i]) by {}
                    lemma_q_dot_wf(ind, col, basic_row as nat);
                    lemma_entry_wf(&tb, rows_m1 as int, c);
                    lemma_entry_wf(&t0, rows_m1 as int, c);
                }
            }
            if basics[basic_row] >= real_variables {
                let r = work.get_row(basic_row).to_owned();
                work.row_add_assign(rows_m1, &r);
                proof {
                    assert forall|c: int| 0 <= c < cols implies q_eq(
                        #[trigger] work.entry(rows_m1 as int, c),
                        q_add(t0.entry(rows_m1 as int, c), q_dot(ind, t0.column_values(c), (basic_row + 1) as nat)),
                    ) by {
                        let col = t0.column_values(c);
                        let x = col[basic_row as int];
                        assert(r.values()[c] == x);
                        lemma_entry_wf(&work, rows_m1 as int, c);
                        lemma_entry_wf(&t0, rows_m1 as int, c);
                        lemma_q_sub_int_zero(x);
                        lemma_q_ops_wf(q_int(1), x);
                        lemma_q_add_accumulate(
                            work.entry(rows_m1 as int, c),
                            tb.entry(rows_m1 as int, c),
                            x,
                            t0.entry(rows_m1 as int, c),
                            q_dot(ind, col, basic_row as nat),
                            q_mul(ind[basic_row as int], x),
                        );
                    }
                }
            } else {
                proof {
                    assert forall|c: int| 0 <= c < cols implies q_eq(
                        #[trigger] work.entry(rows_m1 as int, c),
                        q_add(t0.entry(rows_m1 as int, c), q_dot(ind, t0.column_values(c), (basic_row + 1) as nat)),
                    ) by {
                        let col = t0.column_values(c);
                        let x = col[basic_row as int];
                        let o = work.entry(rows_m1 as int, c);
                        lemma_entry_wf(&t0, rows_m1 as int, c);
                        lemma_q_sub_int_zero(o);
                        lemma_q_ops_wf(q_int(0), x);
                        lemma_q_add_accumulate(o, o, q_int(0), t0.entry(rows_m1 as int, c), q_dot(ind, col, basic_row as nat), q_mul(ind[basic_row as int], x));
                    }
                }
            }
            basic_row = basic_row + 1;
        }
        let mut optimize = Optimize::new(work, basics, nonbasics, Arc::new(BigMatrix::new(0, 0)));
        let ghost start = optimize;
        proof {
            assert(phase_one_start(t0, b0, nb0, real_variables as int, start));
        }
        if !optimize.solve() {
            return None;
        }
        let ghost s1 = optimize;
        let ghost rv = real_variables as int;
        let mut row: usize = 0;
        while row < rows_m1
            invariant
                optimize.wf(),
                optimize.rows == rows,
                optimize.cols == cols,
                optimize.nonbasics.len() == cols_m1,
                rows_m1 == rows - 1,
                cols_m1 == cols - 1,
                row <= rows_m1,
                rv == real_variables,
                artificials_pivoted(s1, optimize, rv, row as nat),
            decreases rows_m1 - row,
        {
            let ghost a = optimize;
            if optimize.basics[row] >= real_variables {
                let mut col: usize = 0;
                while col < cols_m1
                    invariant_except_break
                        optimize == a,
                        forall|c: int| 0 <= c < col ==> !(a.nonbasics@[c] < rv && (#[trigger] a.table.entry(row as int, c)).n != 0),
                    invariant
                        a.wf(),
                        a.rows == rows,
                        a.cols == cols,
                        a.nonbasics.len() == cols_m1,
                        a.basics@[row as int] >= rv,
                        optimize.wf(),
                        optimize.rows == rows,
                        optimize.cols == cols,
                        optimize.nonbasics.len() == cols_m1,
                        rows_m1 == rows - 1,
                        cols_m1 == cols - 1,
                        row < rows_m1,
                        col <= cols_m1,
                        rv == real_variables,
                    ensures
                        artificial_pivoted(a, optimize, rv, row as int),
                    decreases cols_m1 - col,
                {
                    proof {
                        lemma_mat_index(rows as int, cols as int, row as int, col as int);
                    }
                    if optimize.nonbasics[col] < real_variables && !optimize.table.get(row, col).is_zero() {
                        optimize.pivot(col, row);
                        proof {
                            assert(first_exit_column(a, rv, row as int, col as int));
                        }
                        break;
                    }
                    col = col + 1;
                }
            }
            proof {
                let r1 = (row + 1) as nat;
                assert(artificial_pivoted(a, optimize, rv, r1 - 1));
                assert(artificials_pivoted(s1, a, rv, (r1 - 1) as nat));
                assert(artificials_pivoted(s1, optimize, rv, r1));
            }
            row = row + 1;
        }
        let ghost s2 = optimize;
        let ghost nb2 = optimize.nonbasics@;
        proof {
            assert(artificials_pivoted(s1, s2, rv, (t0.row_count - 1) as nat));
        }
        let final_cols = cols - artificials;
        proof {
            assert(rows * final_cols <= rows * cols) by (nonlinear_arith)
                requires
                    final_cols <= cols,
            ;
        }
        let mut final_table = BigMatrix::new(rows, final_cols);
        proof {
            assert forall|c: int| 0 <= c < final_cols implies (#[trigger] final_table.entry(rows_m1 as int, c)).n == 0 by {
                lemma_mat_index(rows as int, final_cols as int, rows_m1 as int, c);
            }
        }
        let mut c0: usize = 0;
        let mut c1: usize = 0;
        let ghost mut wit: Seq<int> = Seq::empty();
        while c0 < final_cols - 1
            invariant
                optimize.wf(),
                optimize.rows == rows,
                optimize.cols == cols,
                optimize.nonbasics.len() == cols_m1,
                optimize.table == s2.table,
                optimize.basics == s2.basics,
                s2.rows == rows,
                s2.cols == cols,
                s2.wf(),
                nb2 == s2.nonbasics@,
                nb2.len() == cols_m1,
                rows_m1 == rows - 1,
                cols_m1 == cols - 1,
                final_cols >= 1,
                final_cols <= cols,
                final_table.wf(),
                final_table.row_count == rows,
                final_table.column_count == final_cols,
                c0 <= c1 <= cols_m1,
                c0 <= final_cols - 1,
                artificials_pivoted(s1, s2, rv, (t0.row_count - 1) as nat),
                t0.row_count == rows,
                t0.column_count == cols,
                final_cols == cols - artificials,
                s2.cols_m1 == cols_m1,
                s2.rows_m1 == rows_m1,
                phase_one_start(t0, b0, nb0, rv, start),
                b0 == basics@,
                nb0 == nonbasics@,
                t0 == table,
                s1.optimal(),
                exists|n: nat| #[trigger] steps_to(start, s1, n),
                rv == (t0.row_count - 1) + (t0.column_count - 1) - artificials,
                rv == real_variables,
                real_count(nb2, rv, c1 as int) == c0,
                wit.len() == c0,
                forall|i: int| c0 <= i < cols_m1 ==> #[trigger] optimize.nonbasics@[i] == nb2[i],
                forall|c: int|
                    0 <= c < c0 ==> 0 <= #[trigger] wit[c] < cols_m1 && nb2[wit[c]] < rv && real_count(nb2, rv, wit[c]) == c
                        && optimize.nonbasics@[c] == nb2[wit[c]] && forall|r: int|
                        0 <= r < rows_m1 ==> #[trigger] final_table.entry(r, c) == s2.table.entry(r, wit[c]),
                forall|c: int| 0 <= c < final_cols ==> (#[trigger] final_table.entry(rows_m1 as int, c)).n == 0,
            decreases final_cols - 1 - c0,
        {
            loop
                invariant_except_break
                    real_count(nb2, rv, c1 as int) == c0,
                    forall|i: int| c0 <= i < cols_m1 ==> #[trigger] optimize.nonbasics@[i] == nb2[i],
                    forall|c: int| 0 <= c < c0 ==> #[trigger] optimize.nonbasics@[c] == nb2[wit[c]],
                invariant
                    optimize.wf(),
                    optimize.rows == rows,
                    optimize.cols == cols,
                    optimize.nonbasics.len() == cols_m1,
                    optimize.table == s2.table,
                    optimize.basics == s2.basics,
                    s2.rows == rows,
                    s2.cols == cols,
                    nb2 == s2.nonbasics@,
                    nb2.len() == cols_m1,
                    rows_m1 == rows - 1,
                    cols_m1 == cols - 1,
                    c0 <= c1 <= cols_m1,
                    c0 < final_cols - 1,
                    final_cols <= cols,
                    final_table.wf(),
                    final_table.row_count == rows,
                    final_table.column_count == final_cols,
                    artificials_pivoted(s1, s2, rv, (t0.row_count - 1) as nat),
                    t0.row_count == rows,
                    t0.column_count == cols,
                    final_cols == cols - artificials,
                    s2.cols_m1 == cols_m1,
                    s2.rows_m1 == rows_m1,
                    phase_one_start(t0, b0, nb0, rv, start),
                    b0 == basics@,
                    nb0 == nonbasics@,
                    t0 == table,
                    s1.optimal(),
                    exists|n: nat| #[trigger] steps_to(start, s1, n),
                    rv == (t0.row_count - 1) + (t0.column_count - 1) - artificials,
                    rv == real_variables,
                    wit.len() == c0,
                    forall|c: int|
                        0 <= c < c0 ==> 0 <= #[trigger] wit[c] < cols_m1 && nb2[wit[c]] < rv && real_count(nb2, rv, wit[c]) == c
                            && forall|r: int| 0 <= r < rows_m1 ==> #[trigger] final_table.entry(r, c) == s2.table.entry(r, wit[c]),
                    forall|c: int| 0 <= c < final_cols ==> (#[trigger] final_table.entry(rows_m1 as int, c)).n == 0,
                ensures
                    c0 <= c1 < cols_m1,
                    nb2[c1 as int] < rv,
                    real_count(nb2, rv, c1 as int) == c0,
                    forall|i: int| c0 < i < cols_m1 ==> #[trigger] optimize.nonbasics@[i] == nb2[i],
                    forall|c: int| 0 <= c < c0 ==> #[trigger] optimize.nonbasics@[c] == nb2[wit[c]],
                    optimize.nonbasics@[c0 as int] == nb2[c1 as int],
                    forall|r: int| 0 <= r < rows_m1 ==> #[trigger] final_table.entry(r, c0 as int) == s2.table.entry(r, c1 as int),
                decreases cols_m1 - c1,
            {
                if c1 >= cols_m1 {
                    // no real nonbasic column is left to fill column `c0`
                    proof {
                        assert(artificials_pivoted(s1, s2, rv, (t0.row_count - 1) as nat));
                        assert(real_count(s2.nonbasics@, rv, s2.cols_m1 as int) < t0.column_count - artificials - 1);
                        let n = choose|n: nat| #[trigger] steps_to(start, s1, n);
                        assert(steps_to(start, s1, n));
                        assert(phase_one_fails(t0, b0, nb0, artificials as int));
                    }
                    return None;
                }
                if optimize.nonbasics[c1] >= real_variables {
                    proof {
                        assert(real_count(nb2, rv, c1 + 1) == real_count(nb2, rv, c1 as int));
                    }
                    c1 = c1 + 1;
                    continue;
                }
                let ghost ft0 = final_table;
                let mut row: usize = 0;
                while row < rows_m1
                    invariant
                        optimize.wf(),
                        optimize.rows == rows,
                        optimize.cols == cols,
                        optimize.table == s2.table,
                        rows_m1 == rows - 1,
                        c0 < final_cols <= cols,
                        c1 < cols_m1,
                        cols_m1 == cols - 1,
                        final_table.wf(),
                        final_table.row_count == rows,
                        final_table.column_count == final_cols,
                        row <= rows_m1,
                        forall|r: int, c: int|
                            0 <= r < rows && 0 <= c < final_cols && (c != c0 || r >= row) ==> #[trigger] final_table.entry(r, c)
                                == ft0.entry(r, c),
                        forall|r: int| 0 <= r < row ==> #[trigger] final_table.entry(r, c0 as int) == s2.table.entry(r, c1 as int),
                    decreases rows_m1 - row,
                {
                    proof {
                        lemma_mat_index(rows as int, cols as int, row as int, c1 as int);
                        lemma_mat_index(rows as int, final_cols as int, row as int, c0 as int);
                    }
                    let x = optimize.table.get(row, c1).clone();
                    final_table.set(row, c0, x);
                    row = row + 1;
                }
                let moved = optimize.nonbasics[c1];
                optimize.nonbasics.set(c0, moved);
                break;
            }
            proof {
                assert(real_count(nb2, rv, c1 + 1) == c0 + 1);
                wit = wit.push(c1 as int);
            }
            c0 = c0 + 1;
            c1 = c1 + 1;
        }
        let ghost ft1 = final_table;
        let mut row: usize = 0;
        while row < rows_m1
            invariant
                optimize.wf(),
                optimize.rows == rows,
                optimize.cols == cols,
                optimize.table == s2.table,
                rows_m1 == rows - 1,
                cols_m1 == cols - 1,
                1 <= final_cols <= cols,
                final_table.wf(),
                final_table.row_count == rows,
                final_table.column_count == final_cols,
                row <= rows_m1,
                optimize.nonbasics.len() == cols_m1,
                forall|r: int, c: int|
                    0 <= r < rows && 0 <= c < final_cols && (c != final_cols - 1 || r >= row) ==> #[trigger] final_table.entry(r, c)
                        == ft1.entry(r, c),
                s2.rows == rows,
                s2.cols == cols,
                s2.cols_m1 == cols_m1,
                s2.rows_m1 == rows_m1,
                optimize.basics == s2.basics,
                forall|r: int| 0 <= r < row ==> #[trigger] final_table.entry(r, final_cols - 1) == s2.table.entry(r, cols_m1 as int),
            decreases rows_m1 - row,
        {
            proof {
                lemma_mat_index(rows as int, cols as int, row as int, cols_m1 as int);
                lemma_mat_index(rows as int, final_cols as int, row as int, (final_cols - 1) as int);
            }
            let x = optimize.table.get(row, cols_m1).clone();
            final_table.set(row, final_cols - 1, x);
            row = row + 1;
        }
        let basics = optimize.basics;
        let nonbasics = optimize.nonbasics;
        let ghost ft2 = final_table;
        let result = Optimize::new(final_table, basics, nonbasics, transform);
        proof {
            assert forall|c: int| 0 <= c < final_cols implies (#[trigger] result.objective(c)).n == 0 by {
                assert(ft2.entry(rows_m1 as int, c) == ft1.entry(rows_m1 as int, c));
            }
            assert forall|c0: int| 0 <= c0 < final_cols - 1 implies #[trigger] column_kept(s2, result, rv, c0) by {
                let w = wit[c0];
                assert(real_count(nb2, rv, w) == c0);
                assert forall|r: int| 0 <= r < s2.rows_m1 implies #[trigger] result.table.entry(r, c0) == s2.table.entry(r, w) by {
                    assert(ft2.entry(r, c0) == ft1.entry(r, c0));
                }
                assert(0 <= w < s2.cols_m1);
                assert(s2.nonbasics@[w] < rv);
                assert(real_count(s2.nonbasics@, rv, w) == c0);
                assert(result.nonbasics@[c0] == s2.nonbasics@[w]);
            }
            assert(result.wf());
            assert(result.transform == transform);
            assert(result.rows == s2.rows);
            assert(result.cols == final_cols);
            assert(result.basics == s2.basics);
            assert(result.nonbasics.len() == s2.nonbasics.len());
            assert forall|r: int| 0 <= r < s2.rows_m1 implies #[trigger] result.table.entry(r, final_cols - 1) == s2.table.entry(r, s2.cols_m1 as int) by {}
            assert(forall|c: int| 0 <= c < final_cols as int ==> (#[trigger] result.objective(c)).n == 0);
            assert(forall|r: int| 0 <= r < s2.rows_m1 ==> #[trigger] result.table.entry(r, final_cols as int - 1) == s2.table.entry(r, s2.cols_m1 as int));
            assert(compacted(s2, result, rv, final_cols as int, transform));
            assert(artificials_pivoted(s1, s2, rv, (t0.row_count - 1) as nat));
            let n = choose|n: nat| #[trigger] steps_to(start, s1, n);
            assert(steps_to(start, s1, n));
            assert(phase_one(t0, b0, nb0, artificials as int, transform, result));
            assert forall|i: int| 0 <= i < result.cols_m1 implies #[trigger] result.nonbasics@[i] < real_variables by {
                assert(nb2[wit[i]] < rv);
            }
        }
        Some(result)
    }

    /// The tableau of the constraints `inner_table` (one row `a . x = b` per constraint, the
    /// right-hand sides last): rows with a negative right-hand side are negated; a column
    /// with a single, positive entry in a row not yet taken makes its variable basic there
    /// (the row is divided by the entry); every other row gets an artificial basic variable;
    /// the first phase of [Optimize::from] then drives the artificials out (see
    /// [built_tableau]). `None` where there are fewer variables than constraint rows, or the
    /// first phase fails.
    pub fn from_build(inner_table: BigMatrix, transform: Arc<BigMatrix>) -> (o: Option<Optimize>)
        requires
            inner_table.wf(),
            inner_table.column_count >= 1,
            (inner_table.row_count + 1) * inner_table.column_count <= usize::MAX,
            transform.wf(),
        ensures
            o matches Some(r) ==> from_build_outcome(inner_table, transform, r),
            o is None ==> from_build_fails(inner_table),
    {
        let ghost m = inner_table;
        let mut inner = inner_table;
        let constraints = inner.row_count;
        let width = inner.column_count;
        let variables = width - 1;
        let no_value = Self::NO_VALUE;
        let unset = |_i: usize| -> (r: usize)
            ensures
                r == usize::MAX,
            {
                usize::MAX
            };
        let mut basics: Vec<usize> = filled_vec(constraints, unset);
        let mut nonbasics: Vec<usize> = Vec::new();
        proof {
            assert(constraints * width <= (constraints + 1) * width) by (nonlinear_arith);
        }
        let mut row: usize = 0;
        while row < constraints
            invariant
                inner.wf(),
                m.wf(),
                inner.row_count == constraints,
                inner.column_count == width,
                m.row_count == constraints,
                m.column_count == width,
                width == variables + 1,
                row <= constraints,
                forall|r: int, c: int|
                    0 <= r < row && 0 <= c < width ==> q_eq(#[trigger] inner.entry(r, c), sign_normalized(m, r, c)),
                forall|r: int, c: int| row <= r < constraints && 0 <= c < width ==> #[trigger] inner.entry(r, c) == m.entry(r, c),
            decreases constraints - row,
        {
            proof {
                lemma_mat_index(constraints as int, width as int, row as int, variables as int);
            }
            let ghost i0 = inner;
            if inner.get(row, variables).is_negative() {
                let minus_one = BigRational::from_i64(-1);
                inner.row_mul_assign(row, &minus_one);
                proof {
                    assert forall|c: int| 0 <= c < width implies q_eq(#[trigger] inner.entry(row as int, c), sign_normalized(m, row as int, c)) by {
                        let x = m.entry(row as int, c);
                        lemma_entry_wf(&m, row as int, c);
                        lemma_q_mul_minus_one(x);
                        lemma_q_ops_wf(x, q_int(-1));
                        lemma_q_eq_trans(inner.entry(row as int, c), q_mul(x, q_int(-1)), q_neg(x));
                    }
                }
            }
            row = row + 1;
        }
        proof {
            lemma_unset_all(basics@, constraints as int);
            assert(basics@ == chosen_basics(m, 0));
            assert forall|r: int, c: int| 0 <= r < constraints && 0 <= c < width implies q_eq(
                #[trigger] inner.entry(r, c),
                built_entry(m, basics@, r, c),
            ) && ((inner.entry(r, c).n != 0) == (m.entry(r, c).n != 0)) by {
                lemma_entry_wf(&inner, r, c);
                lemma_entry_wf(&m, r, c);
                lemma_q_eq_zero_one(inner.entry(r, c), sign_normalized(m, r, c));
            }
        }
        let mut col: usize = 0;
        while col < variables
            invariant
                inner.wf(),
                m.wf(),
                inner.row_count == constraints,
                inner.column_count == width,
                m.row_count == constraints,
                m.column_count == width,
                width == variables + 1,
                col <= variables,
                basics.len() == constraints,
                basics@ == chosen_basics(m, col as nat),
                nonbasics@ == free_columns(m, col as nat),
                nonbasics.len() + (constraints - unset_count(basics@, constraints as int)) == col,
                forall|i: int| 0 <= i < nonbasics.len() ==> #[trigger] nonbasics@[i] < col,
                no_value == usize::MAX,
                forall|r: int, c: int|
                    0 <= r < constraints && 0 <= c < width ==> q_eq(#[trigger] inner.entry(r, c), built_entry(m, basics@, r, c)),
                forall|r: int, c: int|
                    0 <= r < constraints && 0 <= c < width ==> ((#[trigger] inner.entry(r, c)).n != 0) == (m.entry(r, c).n != 0),
            decreases variables - col,
        {
            proof {
                lemma_chosen_basics(m, col as nat);
            }
            let mut count: usize = 0;
            let mut index: usize = no_value;
            let mut row: usize = 0;
            while row < constraints
                invariant
                    inner.wf(),
                    inner.row_count == constraints,
                    inner.column_count == width,
                    width == variables + 1,
                    col < variables,
                    row <= constraints,
                    count == nonzero_count(m, col as int, row as int),
                    count <= row,
                    count > 0 ==> index == last_nonzero(m, col as int, row as int),
                    count > 0 ==> index < constraints,
                    forall|r: int, c: int|
                        0 <= r < constraints && 0 <= c < width ==> ((#[trigger] inner.entry(r, c)).n != 0) == (m.entry(r, c).n != 0),
                decreases constraints - row,
            {
                proof {
                    lemma_mat_index(constraints as int, width as int, row as int, col as int);
                    lemma_nonzero_count_nonneg(m, col as int, row as int);
                }
                if !inner.get(row, col).is_zero() {
                    count = count + 1;
                    index = row;
                }
                row = row + 1;
            }
            let ghost b0 = basics@;
            let ghost i0 = inner;
            let mut taken = false;
            if count == 1 && basics[index] == no_value {
                proof {
                    lemma_mat_index(constraints as int, width as int, index as int, col as int);
                }
                let positive = inner.get(index, col).is_positive();
                proof {
                    let x = inner.entry(index as int, col as int);
                    let y = sign_normalized(m, index as int, col as int);
                    lemma_entry_wf(&inner, index as int, col as int);
                    lemma_entry_wf(&m, index as int, col as int);
                    assert(q_eq(x, y));
                    assert(q_eq(q_int(0), q_int(0)));
                    lemma_q_lt_cong(q_int(0), q_int(0), x, y);
                    assert(q_lt(q_int(0), x) == (x.n > 0));
                    assert(q_lt(q_int(0), y) == (y.n > 0));
                    assert(positive == (y.n > 0));
                }
                if positive {
                    let divisor = inner.get(index, col).clone();
                    inner.row_div_assign(index, &divisor);
                    basics.set(index, col);
                    taken = true;
                    proof {
                        let ix = index as int;
                        let d = sign_normalized(m, ix, col as int);
                        lemma_entry_wf(&m, ix, col as int);
                        assert forall|c: int| 0 <= c < width implies q_eq(#[trigger] inner.entry(ix, c), built_entry(m, basics@, ix, c))
                            && ((inner.entry(ix, c).n != 0) == (m.entry(ix, c).n != 0)) by {
                            let x = i0.entry(ix, c);
                            let e = sign_normalized(m, ix, c);
                            lemma_entry_wf(&i0, ix, c);
                            lemma_entry_wf(&inner, ix, c);
                            lemma_entry_wf(&m, ix, c);
                            assert(q_eq(x, e));
                            lemma_q_div_cong(x, e, divisor@, d);
                            lemma_q_ops_wf(x, divisor@);
                            lemma_q_eq_trans(inner.entry(ix, c), q_div(x, divisor@), q_div(e, d));
                            lemma_q_div_zero(x, divisor@);
                            lemma_q_eq_zero_one(inner.entry(ix, c), q_div(x, divisor@));
                        }
                        lemma_unset_update(b0, ix, col, constraints as int);
                    }
                }
            }
            if !taken {
                nonbasics.push(col);
            }
            proof {
                lemma_chosen_basics(m, col as nat);
                if count == 1 {
                    lemma_last_nonzero(m, col as int, constraints as int);
                }
                assert(taken == takes_column(m, b0, col as int));
                assert(basics@ == chosen_basics(m, (col + 1) as nat));
                assert(nonbasics@ == free_columns(m, (col + 1) as nat));
                assert forall|r: int, c: int| 0 <= r < constraints && 0 <= c < width implies q_eq(
                    #[trigger] inner.entry(r, c),
                    built_entry(m, basics@, r, c),
                ) && ((inner.entry(r, c).n != 0) == (m.entry(r, c).n != 0)) by {
                    if !taken || r != index {
                        assert(inner.entry(r, c) == i0.entry(r, c));
                        assert(basics@[r] == b0[r]);
                    }
                }
            }
            col = col + 1;
        }
        let ghost bc = basics@;
        proof {
            lemma_chosen_basics(m, variables as nat);
            lemma_unset_bounds(bc, constraints as int);
        }
        let mut artificials: usize = 0;
        proof {
            assert(variables + constraints <= (constraints + 1) * width) by (nonlinear_arith)
                requires
                    width == variables + 1,
            ;
        }
        let mut row: usize = 0;
        while row < constraints
            invariant
                basics.len() == constraints,
                bc.len() == constraints,
                row <= constraints,
                artificials == unset_count(bc, row as int),
                variables + constraints <= usize::MAX,
                no_value == usize::MAX,
                forall|r: int| 0 <= r < row ==> #[trigger] basics@[r] == with_artificials(bc, variables as int)[r],
                forall|r: int| row <= r < constraints ==> #[trigger] basics@[r] == bc[r],
            decreases constraints - row,
        {
            proof {
                lemma_unset_bounds(bc, row as int);
                assert(unset_count(bc, row + 1) == unset_count(bc, row as int) + if bc[row as int] == usize::MAX { 1int } else { 0int });
            }
            if basics[row] == no_value {
                basics.set(row, variables + artificials);
                artificials = artificials + 1;
            }
            proof {
                assert(basics@[row as int] == with_artificials(bc, variables as int)[row as int]);
            }
            row = row + 1;
        }
        proof {
            assert(basics@ == with_artificials(bc, variables as int));
        }
        if variables < constraints {
            // fewer variables than constraint rows
            return None;
        }
        let nonbasic_count = variables - constraints + artificials;
        proof {
            lemma_unset_bounds(bc, constraints as int);
            assert(nonbasics.len() == nonbasic_count);
            assert((constraints + 1) * (nonbasic_count + 1) <= (constraints + 1) * width) by (nonlinear_arith)
                requires
                    nonbasic_count + 1 <= width,
            ;
        }
        let mut table = BigMatrix::new(constraints + 1, nonbasic_count + 1);
        proof {
            assert forall|r: int, c: int| 0 <= r <= constraints && 0 <= c <= nonbasic_count implies #[trigger] table.entry(r, c)
                == q_int(0) by {
                lemma_mat_index((constraints + 1) as int, (nonbasic_count + 1) as int, r, c);
            }
        }
        let ghost free = nonbasics@;
        let mut row: usize = 0;
        while row < constraints
            invariant
                inner.wf(),
                m.wf(),
                inner.row_count == constraints,
                inner.column_count == width,
                m.row_count == constraints,
                m.column_count == width,
                width == variables + 1,
                basics.len() == constraints,
                basics@ == with_artificials(bc, variables as int),
                bc == chosen_basics(m, variables as nat),
                bc.len() == constraints,
                variables + constraints <= usize::MAX,
                nonbasics@ == free,
                free == free_columns(m, variables as nat),
                nonbasics.len() == nonbasic_count,
                nonbasic_count <= variables,
                forall|i: int| 0 <= i < nonbasics.len() ==> #[trigger] nonbasics@[i] < variables,
                forall|r: int|
                    0 <= r < constraints && #[trigger] bc[r] != usize::MAX ==> bc[r] < variables && nonzero_count(
                        m,
                        bc[r] as int,
                        constraints as int,
                    ) == 1 && last_nonzero(m, bc[r] as int, constraints as int) == r,
                forall|r: int, c: int|
                    0 <= r < constraints && 0 <= c < width ==> q_eq(#[trigger] inner.entry(r, c), built_entry(m, bc, r, c)),
                forall|r: int, c: int|
                    0 <= r < constraints && 0 <= c < width ==> ((#[trigger] inner.entry(r, c)).n != 0) == (m.entry(r, c).n != 0),
                table.wf(),
                table.row_count == constraints + 1,
                table.column_count == nonbasic_count + 1,
                row <= constraints,
                forall|r: int, j: int|
                    0 <= r < row && 0 <= j < nonbasic_count ==> q_eq(#[trigger] table.entry(r, j), built_entry(m, bc, r, free[j] as int)),
                forall|r: int| 0 <= r < row ==> q_eq(#[trigger] table.entry(r, nonbasic_count as int), built_entry(m, bc, r, variables as int)),
                forall|r: int, j: int| row <= r <= constraints && 0 <= j <= nonbasic_count ==> #[trigger] table.entry(r, j) == q_int(0),
            decreases constraints - row,
        {
            let mut basic_row: usize = 0;
            while basic_row < constraints
                invariant
                    inner.wf(),
                    m.wf(),
                    inner.row_count == constraints,
                    inner.column_count == width,
                    m.row_count == constraints,
                    m.column_count == width,
                    width == variables + 1,
                    basics.len() == constraints,
                    basics@ == with_artificials(bc, variables as int),
                    bc.len() == constraints,
                    variables + constraints <= usize::MAX,
                    row < constraints,
                    basic_row <= constraints,
                    forall|r: int|
                        0 <= r < constraints && #[trigger] bc[r] != usize::MAX ==> bc[r] < variables && nonzero_count(
                            m,
                            bc[r] as int,
                            constraints as int,
                        ) == 1 && last_nonzero(m, bc[r] as int, constraints as int) == r,
                    forall|r: int, c: int|
                        0 <= r < constraints && 0 <= c < width ==> q_eq(#[trigger] inner.entry(r, c), built_entry(m, bc, r, c)),
                    forall|r: int, c: int|
                        0 <= r < constraints && 0 <= c < width ==> ((#[trigger] inner.entry(r, c)).n != 0) == (m.entry(r, c).n != 0),
                decreases constraints - basic_row,
            {
                let b = basics[basic_row];
                if row != basic_row && b < variables {
                    proof {
                        lemma_mat_index(constraints as int, width as int, row as int, b as int);
                        lemma_unset_bounds(bc, basic_row as int);
                        assert(bc[basic_row as int] != usize::MAX);
                        assert(b == bc[basic_row as int]);
                        lemma_single_nonzero(m, b as int, constraints as int, row as int);
                    }
                    let ghost i0 = inner;
                    let scalar = inner.get(row, b).clone();
                    let basic_vector = vec_scale(&inner.get_row(basic_row), &scalar);
                    let factor = inner.get(row, b).clone();
                    let scaled = vec_scale(&basic_vector, &factor);
                    inner.row_sub_assign(row, &scaled);
                    proof {
                        assert(scalar@.n == 0);
                        basic_vector.lemma_values_wf();
                        scaled.lemma_values_wf();
                        assert forall|c: int| 0 <= c < width implies q_eq(#[trigger] inner.entry(row as int, c), built_entry(m, bc, row as int, c))
                            && ((inner.entry(row as int, c).n != 0) == (m.entry(row as int, c).n != 0)) by {
                            let x = i0.entry(row as int, c);
                            let y = scaled.values()[c];
                            lemma_entry_wf(&i0, row as int, c);
                            lemma_entry_wf(&inner, row as int, c);
                            lemma_q_mul_zero(factor@, basic_vector.values()[c]);
                            lemma_q_mul_comm(basic_vector.values()[c], factor@);
                            assert(q_eq(y, q_mul(basic_vector.values()[c], factor@)));
                            assert(y.n == 0) by (nonlinear_arith)
                                requires
                                    y.n * (basic_vector.values()[c].d * factor@.d) == (basic_vector.values()[c].n * factor@.n)
                                        * y.d,
                                    factor@.n == 0,
                                    basic_vector.values()[c].d > 0,
                                    factor@.d > 0,
                            ;
                            lemma_q_sub_zero(x, y);
                            lemma_q_ops_wf(x, y);
                            lemma_q_eq_trans(inner.entry(row as int, c), q_sub(x, y), x);
                            lemma_q_eq_trans(inner.entry(row as int, c), x, built_entry(m, bc, row as int, c));
                            lemma_q_eq_zero_one(inner.entry(row as int, c), x);
                        }
                    }
                }
                basic_row = basic_row + 1;
            }
            let ghost t0 = table;
            let mut col: usize = 0;
            while col < nonbasic_count
                invariant
                    inner.wf(),
                    inner.row_count == constraints,
                    inner.column_count == width,
                    width == variables + 1,
                    nonbasics.len() == nonbasic_count,
                    nonbasics@ == free,
                    forall|i: int| 0 <= i < nonbasics.len() ==> #[trigger] nonbasics@[i] < variables,
                    table.wf(),
                    table.row_count == constraints + 1,
                    table.column_count == nonbasic_count + 1,
                    row < constraints,
                    col <= nonbasic_count,
                    forall|r: int, j: int|
                        0 <= r <= constraints && 0 <= j <= nonbasic_count && (r != row || j >= col) ==> #[trigger] table.entry(r, j)
                            == t0.entry(r, j),
                    forall|j: int| 0 <= j < col ==> #[trigger] table.entry(row as int, j) == inner.entry(row as int, free[j] as int),
                decreases nonbasic_count - col,
            {
                let source = nonbasics[col];
                proof {
                    lemma_mat_index(constraints as int, width as int, row as int, source as int);
                    lemma_mat_index((constraints + 1) as int, (nonbasic_count + 1) as int, row as int, col as int);
                }
                let x = inner.get(row, source).clone();
                table.set(row, col, x);
                col = col + 1;
            }
            proof {
                lemma_mat_index(constraints as int, width as int, row as int, variables as int);
                lemma_mat_index((constraints + 1) as int, (nonbasic_count + 1) as int, row as int, nonbasic_count as int);
            }
            let x = inner.get(row, variables).clone();
            table.set(row, nonbasic_count, x);
            row = row + 1;
        }
        let ghost bt = table;
        proof {
            assert(built_tableau(m, bt));
        }
        Self::from(table, basics, nonbasics, artificials, transform)
    }
}

/// Collects bounds on the variables and builds the [Optimize] tableau of their box.
pub struct OptimizeBuilder {
    pub size: usize,
    pub slacks: Vec<i32>,
    pub lefts: Vec<OwnedBigVector>,
    pub rights: Vec<BigRational>,
}

impl OptimizeBuilder {
    /// Well-formed: one slack sign, left-hand side and right-hand side per constraint, each
    /// left-hand side a vector over the variables.
    pub open spec fn wf(&self) -> bool {
        &&& self.slacks.len() == self.lefts.len()
        &&& self.slacks.len() == self.rights.len()
        &&& forall|i: int| 0 <= i < self.lefts.len() ==> (#[trigger] self.lefts@[i]).wf_vec() && self.lefts@[i].dimension == self.size
        &&& forall|i: int| 0 <= i < self.rights.len() ==> wf_rat(#[trigger] self.rights@[i])
    }

    /// A builder for `size` variables, without constraints.
    pub fn of_size(size: usize) -> (b: OptimizeBuilder)
        ensures
            b.wf(),
            b.size == size,
            b.slacks@.len() == 0,
    {
        OptimizeBuilder { size, slacks: Vec::new(), lefts: Vec::new(), rights: Vec::new() }
    }

    fn add(&mut self, slack: i32, lhs: OwnedBigVector, rhs: BigRational)
        requires
            old(self).wf(),
            lhs.wf_vec(),
            lhs.dimension == old(self).size,
            wf_rat(rhs),
        ensures
            final(self).wf(),
            final(self).size == old(self).size,
            final(self).slacks@ == old(self).slacks@.push(slack),
            final(self).lefts@ == old(self).lefts@.push(lhs),
            final(self).rights@ == old(self).rights@.push(rhs),
    {
        self.slacks.push(slack);
        self.lefts.push(lhs);
        self.rights.push(rhs);
    }

    /// Adds the constraint `x[lhs] >= rhs`.
    pub fn with_lower_bound(&mut self, lhs: usize, rhs: BigRational)
        requires
            old(self).wf(),
            lhs < old(self).size,
            wf_rat(rhs),
        ensures
            final(self).wf(),
            final(self).size == old(self).size,
            final(self).slacks@ == old(self).slacks@.push(-1i32),
            final(self).lefts@.len() == old(self).lefts@.len() + 1,
            final(self).lefts@.drop_last() == old(self).lefts@,
            final(self).lefts@.last().values() == crate::math::component::big_vector::q_basis(old(self).size as nat, lhs as int, q_int(1)),
            final(self).rights@ == old(self).rights@.push(rhs),
    {
        let v = OwnedBigVector::basis(self.size, lhs);
        proof {
            assert(v.dimension == v.values().len());
        }
        self.add(-1, v, rhs);
    }

    /// Adds the constraint `x[lhs] <= rhs`.
    pub fn with_upper_bound(&mut self, lhs: usize, rhs: BigRational)
        requires
            old(self).wf(),
            lhs < old(self).size,
            wf_rat(rhs),
        ensures
            final(self).wf(),
            final(self).size == old(self).size,
            final(self).slacks@ == old(self).slacks@.push(1i32),
            final(self).lefts@.len() == old(self).lefts@.len() + 1,
            final(self).lefts@.drop_last() == old(self).lefts@,
            final(self).lefts@.last().values() == crate::math::component::big_vector::q_basis(old(self).size as nat, lhs as int, q_int(1)),
            final(self).rights@ == old(self).rights@.push(rhs),
    {
        let v = OwnedBigVector::basis(self.size, lhs);
        proof {
            assert(v.dimension == v.values().len());
        }
        self.add(1, v, rhs);
    }

    /// Builds the tableau: each constraint `lhs . x (+/-) slack = rhs` with its own slack
    /// variable ([builder_table]), the variables' columns reduced by Gauss-Jordan elimination,
    /// for each variable without a pivot a row tying it to two more slack columns
    /// ([free_rows_added]), a second, full reduction, then the rows of the variables become the
    /// transform and the rows after them the constraint table of [Optimize::from_build]
    /// ([sliced]). `None` where fewer independent rows than twice the variables remain, there
    /// are fewer constraints than variables, or [Optimize::from_build] gives nothing.
    pub fn build(self) -> (o: Option<Optimize>)
        requires
            self.wf(),
            (self.size + self.slacks.len()) * 3 + 1 <= usize::MAX,
            (self.slacks.len() + self.size + 1) * ((self.size + self.slacks.len()) * 3 + 1) <= usize::MAX,
            self.slacks.len() + self.size <= i32::MAX,
        ensures
            o matches Some(r) ==> build_outcome(self, r),
            o is None ==> build_fails(self),
    {
        let size = self.size;
        let n = self.slacks.len();
        let column_count = (size + n) * 2 + size;
        let width = column_count + 1;
        let height = n + size;
        let mut constraint: usize = 0;
        let mut slack = size;
        proof {
            assert(height * width <= (height + 1) * width) by (nonlinear_arith);
            assert((height + 1) * width <= (height + 1) * ((size + n) * 3 + 1)) by (nonlinear_arith)
                requires
                    width <= (size + n) * 3 + 1,
            ;
        }
        let mut table = BigMatrix::new(height, width);
        proof {
            assert forall|r: int, c: int| 0 <= r < height && 0 <= c < width implies #[trigger] table.entry(r, c) == q_int(0) by {
                lemma_mat_index(height as int, width as int, r, c);
            }
        }
        while constraint < n
            invariant
                self.wf(),
                n == self.slacks.len(),
                size == self.size,
                column_count == (size + n) * 2 + size,
                column_count == build_columns(self),
                width == column_count + 1,
                height == n + size,
                table.wf(),
                table.row_count == height,
                table.column_count == width,
                constraint <= n,
                slack == size + slack_count(self.slacks@, constraint as int),
                size <= slack <= size + constraint,
                forall|r: int, c: int|
                    0 <= r < constraint && 0 <= c < size ==> #[trigger] table.entry(r, c) == self.lefts@[r].values()[c],
                forall|r: int| 0 <= r < constraint ==> #[trigger] table.entry(r, column_count as int) == self.rights@[r]@,
                forall|r: int|
                    0 <= r < constraint && self.slacks@[r] != 0 ==> #[trigger] table.entry(r, size + slack_count(self.slacks@, r))
                        == q_int(self.slacks@[r] as int),
                forall|r: int, c: int|
                    0 <= r < height && 0 <= c < width && (r >= constraint || (size <= c < column_count && (self.slacks@[r] == 0
                        || c != size + slack_count(self.slacks@, r)))) ==> #[trigger] table.entry(r, c) == q_int(0),
            decreases n - constraint,
        {
            let ghost tb = table;
            proof {
                lemma_slack_count_bounds(self.slacks@, constraint as int);
            }
            let mut col: usize = 0;
            while col < size
                invariant
                    self.wf(),
                    n == self.slacks.len(),
                    size == self.size,
                    width == column_count + 1,
                    column_count == (size + n) * 2 + size,
                    height == n + size,
                    table.wf(),
                    table.row_count == height,
                    table.column_count == width,
                    constraint < n,
                    col <= size,
                    forall|r: int, c: int|
                        0 <= r < height && 0 <= c < width && (r != constraint || c >= col) ==> #[trigger] table.entry(r, c)
                            == tb.entry(r, c),
                    forall|c: int| 0 <= c < col ==> #[trigger] table.entry(constraint as int, c) == self.lefts@[constraint as int].values()[c],
                decreases size - col,
            {
                proof {
                    lemma_mat_index(height as int, width as int, constraint as int, col as int);
                }
                let x = self.lefts[constraint].get(col).clone();
                table.set(constraint, col, x);
                col = col + 1;
            }
            proof {
                lemma_mat_index(height as int, width as int, constraint as int, column_count as int);
            }
            table.set(constraint, column_count, self.rights[constraint].clone());
            let ghost s_old = slack;
            if self.slacks[constraint] != 0 {
                proof {
                    lemma_mat_index(height as int, width as int, constraint as int, slack as int);
                }
                table.set(constraint, slack, BigRational::from_i64(self.slacks[constraint] as i64));
                slack = slack + 1;
            }
            proof {
                assert(slack_count(self.slacks@, constraint + 1) == slack_count(self.slacks@, constraint as int) + if self.slacks@[constraint as int] != 0 { 1int } else { 0int });
                assert forall|r: int|
                    0 <= r < constraint && self.slacks@[r] != 0 implies #[trigger] table.entry(r, size + slack_count(self.slacks@, r))
                        == q_int(self.slacks@[r] as int) by {
                    lemma_slack_count_bounds(self.slacks@, r);
                    assert(tb.entry(r, size + slack_count(self.slacks@, r)) == q_int(self.slacks@[r] as int));
                }
                if self.slacks@[constraint as int] != 0 {
                    assert(table.entry(constraint as int, s_old as int) == q_int(self.slacks@[constraint as int] as int));
                    assert(table.entry(constraint as int, size + slack_count(self.slacks@, constraint as int)) == q_int(
                        self.slacks@[constraint as int] as int,
                    ));
                }
            }
            constraint = constraint + 1;
        }
        let ghost t0 = table;
        proof {
            assert(builder_table(self, t0));
        }
        let free_column = |col: usize, _rows: &Vec<i32>| -> (b: bool)
            ensures
                b == (col < size),
            {
                col < size
            };
        proof {
            lemma_slack_count_bounds(self.slacks@, n as int);
        }
        let pivot_rows = reduce_with_action(&mut table, free_column);
        let ghost t1 = table;
        let ghost pr1 = pivot_rows@;
        let ghost s0 = slack as int;
        proof {
            assert forall|c: int| 0 <= c < size && #[trigger] pr1[c] == -1 implies free_column_ok(&t1, pr1, c) by {
                if c > 0 {
                    assert forall|v: &Vec<i32>, b: bool| #[trigger] call_ensures(free_column, (c as usize, v), b) implies b by {}
                    assert(crate::math::optimize::gauss_jordan::action_takes(free_column, c as usize));
                }
                assert(crate::math::optimize::gauss_jordan::column_examined(free_column, c));
            }
            assert(reduced_from(t0, t1, pr1, size as int));
        }
        let mut col: usize = 0;
        while col < size
            invariant
                size == self.size,
                n == self.slacks.len(),
                column_count == (size + n) * 2 + size,
                width == column_count + 1,
                height == n + size,
                table.wf(),
                table.row_count == height,
                table.column_count == width,
                pivot_rows.len() == width,
                pivot_rows@ == pr1,
                t1.row_count == height,
                t1.column_count == width,
                col <= size,
                s0 == size + slack_count(self.slacks@, n as int),
                s0 <= size + n,
                constraint == n + unpivoted_count(pr1, col as int),
                slack == s0 + unpivoted_count(pr1, col as int),
                size <= slack <= size + n + col,
                unpivoted_count(pr1, col as int) <= col,
                forall|r: int, c: int|
                    0 <= r < height && 0 <= c < width ==> #[trigger] table.entry(r, c) == free_row_entry(
                        t1,
                        pr1,
                        size as int,
                        n as int,
                        s0,
                        r,
                        c,
                        col as int,
                    ),
            decreases size - col,
        {
            let ghost tb = table;
            let ghost k0 = constraint as int;
            let ghost sl0 = slack as int;
            proof {
                lemma_unpivoted_bounds(pr1, col as int);
                lemma_unpivoted_bounds(pr1, col + 1);
            }
            if pivot_rows[col] == -1 {
                proof {
                    lemma_mat_index(height as int, width as int, constraint as int, col as int);
                    lemma_mat_index(height as int, width as int, constraint as int, slack as int);
                    lemma_mat_index(height as int, width as int, constraint as int, (slack + 1) as int);
                }
                table.set(constraint, col, BigRational::one());
                table.set(constraint, slack, BigRational::one());
                table.set(constraint, slack + 1, BigRational::from_i64(-1));
                constraint = constraint + 1;
                slack = slack + 1;
            }
            proof {
                assert forall|r: int, c: int| 0 <= r < height && 0 <= c < width implies #[trigger] table.entry(r, c)
                    == free_row_entry(t1, pr1, size as int, n as int, s0, r, c, col + 1) by {
                    assert(tb.entry(r, c) == free_row_entry(t1, pr1, size as int, n as int, s0, r, c, col as int));
                    let j = unpivoted_count(pr1, col as int);
                    assert(k0 == n + j && sl0 == s0 + j);
                    if pr1[col as int] == -1 && r == k0 && c == col {
                        assert(table.entry(r, c) == q_int(1));
                    } else if pr1[col as int] == -1 && r == k0 && c == sl0 {
                        assert(table.entry(r, c) == q_int(1));
                    } else if pr1[col as int] == -1 && r == k0 && c == sl0 + 1 {
                        assert(table.entry(r, c) == q_int(-1));
                    } else {
                        assert(table.entry(r, c) == tb.entry(r, c));
                    }
                }
            }
            col = col + 1;
        }
        let ghost t1b = table;
        proof {
            assert(free_rows_added(t1, t1b, pr1, size as int, n as int, s0));
        }
        let pivot_rows = reduce_matrix(&mut table);
        let ghost t2 = table;
        let ghost pr2 = pivot_rows@;
        proof {
            assert(reduced_from(t1b, t2, pr2, width as int));
        }
        let mut top: i32 = -1;
        let mut i: usize = 0;
        while i < pivot_rows.len()
            invariant
                table.row_count == height,
                height <= i32::MAX,
                forall|c: int| 0 <= c < pivot_rows.len() ==> -1 <= #[trigger] pivot_rows@[c] < height,
                -1 <= top < height,
                i <= pivot_rows.len(),
                top == seq_max(pivot_rows@, i as int),
            decreases pivot_rows.len() - i,
        {
            if pivot_rows[i] > top {
                top = pivot_rows[i];
            }
            i = i + 1;
        }
        let constraint = (1 + top) as usize;
        if constraint < size || constraint - size < size || n < size {
            // the rows of the variables and of their constraints do not fit
            proof {
                assert(build_prefix(self, t0, t1, pr1, t1b, t2, pr2));
            }
            return None;
        }
        let tcols = slack - size + 1;
        let inner_rows = constraint - size;
        proof {
            assert(size * tcols <= height * width) by (nonlinear_arith)
                requires
                    size <= height,
                    tcols <= width,
            ;
            assert((inner_rows + 1) * tcols <= (height + 1) * width) by (nonlinear_arith)
                requires
                    inner_rows + 1 <= height + 1,
                    tcols <= width,
            ;
            assert(inner_rows * tcols <= (inner_rows + 1) * tcols) by (nonlinear_arith);
        }
        let mut transform = BigMatrix::new(size, tcols);
        let mut inner_table = BigMatrix::new(inner_rows, tcols);
        proof {
            assert forall|r: int, c: int| 0 <= r < inner_rows && 0 <= c < tcols implies #[trigger] inner_table.entry(r, c) == q_int(0) by {
                lemma_mat_index(inner_rows as int, tcols as int, r, c);
            }
        }
        let mut row: usize = 0;
        while row < size
            invariant
                table.wf(),
                table == t2,
                table.row_count == height,
                table.column_count == width,
                width == column_count + 1,
                column_count == (size + n) * 2 + size,
                height * width <= usize::MAX,
                height == n + size,
                size <= slack <= size + n + size,
                tcols == slack - size + 1,
                size <= inner_rows,
                inner_rows + size <= height,
                transform.wf(),
                transform.row_count == size,
                transform.column_count == tcols,
                inner_table.wf(),
                inner_table.row_count == inner_rows,
                inner_table.column_count == tcols,
                row <= size,
                forall|r: int, c: int| 0 <= r < row && 0 <= c < tcols - 1 ==> #[trigger] transform.entry(r, c) == t2.entry(r, size + c),
                forall|r: int| 0 <= r < row ==> #[trigger] transform.entry(r, tcols - 1) == t2.entry(r, column_count as int),
                forall|r: int, c: int|
                    0 <= r < row && 0 <= c < tcols - 1 ==> #[trigger] inner_table.entry(r, c) == t2.entry(size + r, size + c),
                forall|r: int| 0 <= r < row ==> #[trigger] inner_table.entry(r, tcols - 1) == t2.entry(size + r, column_count as int),
                forall|r: int, c: int| row <= r < inner_rows && 0 <= c < tcols ==> #[trigger] inner_table.entry(r, c) == q_int(0),
            decreases size - row,
        {
            let ghost tr0 = transform;
            let ghost in0 = inner_table;
            let mut col: usize = 0;
            while col < slack - size
                invariant
                    table.wf(),
                    table == t2,
                    table.row_count == height,
                    table.column_count == width,
                    width == column_count + 1,
                    column_count == (size + n) * 2 + size,
                    height == n + size,
                    size <= slack <= size + n + size,
                    tcols == slack - size + 1,
                    size <= inner_rows,
                    inner_rows + size <= height,
                    transform.wf(),
                    transform.row_count == size,
                    transform.column_count == tcols,
                    inner_table.wf(),
                    inner_table.row_count == inner_rows,
                    inner_table.column_count == tcols,
                    row < size,
                    col <= slack - size,
                    forall|r: int, c: int|
                        0 <= r < size && 0 <= c < tcols && (r != row || c >= col) ==> #[trigger] transform.entry(r, c) == tr0.entry(r, c),
                    forall|r: int, c: int|
                        0 <= r < inner_rows && 0 <= c < tcols && (r != row || c >= col) ==> #[trigger] inner_table.entry(r, c) == in0.entry(
                            r,
                            c,
                        ),
                    forall|c: int| 0 <= c < col ==> #[trigger] transform.entry(row as int, c) == t2.entry(row as int, size + c),
                    forall|c: int| 0 <= c < col ==> #[trigger] inner_table.entry(row as int, c) == t2.entry(size + row, size + c),
                decreases slack - size - col,
            {
                proof {
                    lemma_mat_index(height as int, width as int, row as int, (size + col) as int);
                    lemma_mat_index(size as int, tcols as int, row as int, col as int);
                    lemma_mat_index(height as int, width as int, (size + row) as int, (size + col) as int);
                    lemma_mat_index(inner_rows as int, tcols as int, row as int, col as int);
                }
                let x = table.get(row, size + col).clone();
                transform.set(row, col, x);
                let y = table.get(size + row, size + col).clone();
                inner_table.set(row, col, y);
                col = col + 1;
            }
            proof {
                lemma_mat_index(height as int, width as int, row as int, column_count as int);
                lemma_mat_index(size as int, tcols as int, row as int, (slack - size) as int);
                lemma_mat_index(height as int, width as int, (size + row) as int, column_count as int);
                lemma_mat_index(inner_rows as int, tcols as int, row as int, (slack - size) as int);
            }
            let x = table.get(row, column_count).clone();
            transform.set(row, slack - size, x);
            let y = table.get(size + row, column_count).clone();
            inner_table.set(row, slack - size, y);
            row = row + 1;
        }
        proof {
            assert(sliced(t2, size as int, slack as int, column_count as int, transform, inner_table));
            assert(build_prefix(self, t0, t1, pr1, t1b, t2, pr2));
            assert(slack == build_slack(self, pr1));
        }
        let ghost tr = transform;
        let ghost inn = inner_table;
        let transform = Arc::new(transform);
        let o = Optimize::from_build(inner_table, transform);
        proof {
            assert(sliced(t2, size as int, build_slack(self, pr1), build_columns(self), tr, inn));
        }
        o
    }
}

/// `b` is reached from `a` by `n` simplex steps, each pivoting on the entering column and the
/// exiting row that the rules of [Optimize::step] choose.
pub open spec fn steps_to(a: Optimize, b: Optimize, n: nat) -> bool
    decreases n,
{
    if n == 0 {
        a == b
    } else {
        exists|mid: Optimize, e: int, x: int|
            steps_to(a, mid, (n - 1) as nat) && mid.entering_column(e) && mid.exiting_row(e, x) && #[trigger] mid.pivoted(
                b,
                e,
                x,
            )
    }
}

/// `c` is a copy of the tableau `o`, with as many basic variables as constraint rows and
/// nonbasic ones as variable columns.
pub open spec fn copy_of(o: Optimize, c: Optimize) -> bool {
    &&& c.wf()
    &&& c.table.values() == o.table.values()
    &&& c.table.row_count == o.table.row_count
    &&& c.table.column_count == o.table.column_count
    &&& c.basics@ == o.basics@.take(o.rows_m1 as int)
    &&& c.nonbasics@ == o.nonbasics@.take(o.cols_m1 as int)
    &&& c.transform == o.transform
}

/// `v` is the minimum of `g . x` that the simplex finds on a copy of `o`: the corner of the
/// optimal tableau it reaches from the copy with the objective row set from `g`.
pub open spec fn simplex_minimum(o: Optimize, g: Seq<Q>, v: Q) -> bool {
    exists|c: Optimize, start: Optimize, fin: Optimize, n: nat|
        #![trigger copy_of(o, c), steps_to(start, fin, n)]
        copy_of(o, c) && c.starts_from(start, g) && steps_to(start, fin, n) && fin.optimal() && v == fin.corner()
}

/// `v` is the maximum of `g . x` that the simplex finds on a copy of `o`: the negated
/// minimum of `-g . x`.
pub open spec fn simplex_maximum(o: Optimize, g: Seq<Q>, v: Q) -> bool {
    exists|c: Optimize, h: Seq<Q>, start: Optimize, fin: Optimize, n: nat|
        #![trigger copy_of(o, c), c.starts_from(start, h), steps_to(start, fin, n)]
        copy_of(o, c) && q_eq_seq(h, q_seq_scale(g, q_int(-1))) && c.starts_from(start, h) && steps_to(start, fin, n)
            && fin.optimal() && v == q_neg(fin.corner())
}

/// The simplex on a copy of `o`, minimizing `g . x`, stops without an optimum: the objective
/// is unbounded, or 2^64 - 1 steps are taken.
pub open spec fn simplex_min_fails(o: Optimize, g: Seq<Q>) -> bool {
    exists|c: Optimize, start: Optimize, fin: Optimize, n: nat|
        #![trigger copy_of(o, c), steps_to(start, fin, n)]
        copy_of(o, c) && c.starts_from(start, g) && steps_to(start, fin, n) && (fin.unbounded() || n >= 0xFFFF_FFFF_FFFF_FFFF)
}

/// The simplex on a copy of `o`, maximizing `g . x`, stops without an optimum.
pub open spec fn simplex_max_fails(o: Optimize, g: Seq<Q>) -> bool {
    exists|c: Optimize, h: Seq<Q>, start: Optimize, fin: Optimize, n: nat|
        #![trigger copy_of(o, c), c.starts_from(start, h), steps_to(start, fin, n)]
        copy_of(o, c) && q_eq_seq(h, q_seq_scale(g, q_int(-1))) && c.starts_from(start, h) && steps_to(start, fin, n) && (
        fin.unbounded() || n >= 0xFFFF_FFFF_FFFF_FFFF)
}

/// One rational per constraint row: one where the row's basic variable is artificial (its
/// index is at least `real_vars`), zero elsewhere.
pub open spec fn artificial_rows(basics: Seq<usize>, rows_m1: nat, real_vars: int) -> Seq<Q> {
    Seq::new(rows_m1, |r: int| q_int(if basics[r] >= real_vars { 1 } else { 0 }))
}

/// `start` is the first-phase tableau of `table`: its constraint rows and variables, and its
/// objective row plus every constraint row whose basic variable is artificial.
pub open spec fn phase_one_start(table: BigMatrix, basics: Seq<usize>, nonbasics: Seq<usize>, real_vars: int, start: Optimize) -> bool {
    let m = table.row_count - 1;
    &&& start.wf()
    &&& start.rows == table.row_count
    &&& start.cols == table.column_count
    &&& start.basics@ == basics
    &&& start.nonbasics@ == nonbasics
    &&& forall|r: int, c: int|
        0 <= r < m && 0 <= c < table.column_count ==> #[trigger] start.table.entry(r, c) == table.entry(r, c)
    &&& forall|c: int|
        0 <= c < table.column_count ==> q_eq(
            #[trigger] start.objective(c),
            q_add(table.entry(m, c), q_dot(artificial_rows(basics, m as nat, real_vars), table.column_values(c), m as nat)),
        )
}

/// Column `col` is the first column of a real nonbasic variable with a nonzero entry in row `r`.
pub open spec fn first_exit_column(a: Optimize, real_vars: int, r: int, col: int) -> bool {
    &&& 0 <= col < a.cols_m1
    &&& a.nonbasics@[col] < real_vars
    &&& a.table.entry(r, col).n != 0
    &&& forall|c: int| 0 <= c < col ==> !(a.nonbasics@[c] < real_vars && (#[trigger] a.table.entry(r, c)).n != 0)
}

/// Row `r` of `a` done: where its basic variable is artificial and some real nonbasic column
/// has a nonzero entry in it, `b` is `a` pivoted on the first such column; else `b` is `a`.
pub open spec fn artificial_pivoted(a: Optimize, b: Optimize, real_vars: int, r: int) -> bool {
    if a.basics@[r] >= real_vars && exists|col: int| #[trigger] first_exit_column(a, real_vars, r, col) {
        exists|col: int| #[trigger] first_exit_column(a, real_vars, r, col) && a.pivoted(b, col, r)
    } else {
        b == a
    }
}

/// `b` is `a` after rows `0..r` went in turn through [artificial_pivoted].
pub open spec fn artificials_pivoted(a: Optimize, b: Optimize, real_vars: int, r: nat) -> bool
    decreases r,
{
    if r == 0 {
        a == b
    } else {
        exists|mid: Optimize|
            artificials_pivoted(a, mid, real_vars, (r - 1) as nat) && #[trigger] artificial_pivoted(mid, b, real_vars, r - 1)
    }
}

/// How many of the first `k` nonbasic variables are real (index below `real_vars`).
pub open spec fn real_count(nonbasics: Seq<usize>, real_vars: int, k: int) -> int
    decreases k,
{
    if k <= 0 {
        0
    } else {
        real_count(nonbasics, real_vars, k - 1) + if nonbasics[k - 1] < real_vars { 1int } else { 0int }
    }
}

/// Column `c0` of `o` is the column of the real nonbasic variable of `s` that has `c0` real
/// ones before it, variable and constraint entries alike.
pub open spec fn column_kept(s: Optimize, o: Optimize, real_vars: int, c0: int) -> bool {
    exists|c1: int|
        0 <= c1 < s.cols_m1 && s.nonbasics@[c1] < real_vars && #[trigger] real_count(s.nonbasics@, real_vars, c1) == c0
            && o.nonbasics@[c0] == s.nonbasics@[c1] && forall|r: int|
            0 <= r < s.rows_m1 ==> #[trigger] o.table.entry(r, c0) == s.table.entry(r, c1)
}

/// `o` keeps the columns of the real nonbasic variables of `s`, in order, then its
/// right-hand sides, with a zero objective row and the given transform.
pub open spec fn compacted(s: Optimize, o: Optimize, real_vars: int, width: int, transform: Arc<BigMatrix>) -> bool {
    &&& o.wf()
    &&& o.transform == transform
    &&& o.rows == s.rows
    &&& o.cols == width
    &&& o.basics == s.basics
    &&& o.nonbasics.len() == s.nonbasics.len()
    &&& forall|c0: int| 0 <= c0 < width - 1 ==> #[trigger] column_kept(s, o, real_vars, c0)
    &&& forall|r: int| 0 <= r < s.rows_m1 ==> #[trigger] o.table.entry(r, width - 1) == s.table.entry(r, s.cols_m1 as int)
    &&& forall|c: int| 0 <= c < width ==> (#[trigger] o.objective(c)).n == 0
}

/// `o` is the outcome of the first phase on `table`: from [phase_one_start], the simplex
/// reaches an optimal tableau, the basic artificial variables are pivoted out where they can
/// be, and the columns of the artificial nonbasic variables are dropped.
pub open spec fn phase_one(
    table: BigMatrix,
    basics: Seq<usize>,
    nonbasics: Seq<usize>,
    artificials: int,
    transform: Arc<BigMatrix>,
    o: Optimize,
) -> bool {
    let m = table.row_count - 1;
    let real_vars = m + (table.column_count - 1) - artificials;
    exists|start: Optimize, s1: Optimize, s2: Optimize, n: nat|
        #![trigger steps_to(start, s1, n), artificials_pivoted(s1, s2, real_vars, m as nat)]
        phase_one_start(table, basics, nonbasics, real_vars, start) && steps_to(start, s1, n) && s1.optimal()
            && artificials_pivoted(s1, s2, real_vars, m as nat) && compacted(s2, o, real_vars, table.column_count - artificials, transform)
}

/// The first phase on `table` fails: the simplex from [phase_one_start] stops at a tableau
/// where the objective is unbounded (or does not end within 2^64 - 1 steps), or leaves fewer
/// real nonbasic variables than the new table has columns before its right-hand sides.
pub open spec fn phase_one_fails(table: BigMatrix, basics: Seq<usize>, nonbasics: Seq<usize>, artificials: int) -> bool {
    let m = table.row_count - 1;
    let real_vars = m + (table.column_count - 1) - artificials;
    exists|start: Optimize, s1: Optimize, n: nat|
        #![trigger phase_one_start(table, basics, nonbasics, real_vars, start), steps_to(start, s1, n)]
        phase_one_start(table, basics, nonbasics, real_vars, start) && steps_to(start, s1, n) && (s1.unbounded()
            || n >= 0xFFFF_FFFF_FFFF_FFFF || exists|s2: Optimize|
            #[trigger] artificials_pivoted(s1, s2, real_vars, m as nat) && real_count(s2.nonbasics@, real_vars, s2.cols_m1 as int)
                < table.column_count - artificials - 1)
}

/// Entry `r`, `c` of `m`, with row `r` negated where its right-hand side (the last column)
/// is negative.
pub open spec fn sign_normalized(m: BigMatrix, r: int, c: int) -> Q {
    if m.entry(r, m.column_count - 1).n < 0 {
        q_neg(m.entry(r, c))
    } else {
        m.entry(r, c)
    }
}

/// How many of the first `n` rows of `m` have a nonzero entry in column `c`.
pub open spec fn nonzero_count(m: BigMatrix, c: int, n: int) -> int
    decreases n,
{
    if n <= 0 {
        0
    } else {
        nonzero_count(m, c, n - 1) + if m.entry(n - 1, c).n != 0 { 1int } else { 0int }
    }
}

/// The last of the first `n` rows of `m` with a nonzero entry in column `c` (`-1` if none).
pub open spec fn last_nonzero(m: BigMatrix, c: int, n: int) -> int
    decreases n,
{
    if n <= 0 {
        -1
    } else if m.entry(n - 1, c).n != 0 {
        n - 1
    } else {
        last_nonzero(m, c, n - 1)
    }
}

/// Column `c` of `m` becomes basic, given the basic variables `prev` chosen so far: it has a
/// single nonzero entry, in a row without a basic variable yet, positive once the row's sign
/// is normalized.
pub open spec fn takes_column(m: BigMatrix, prev: Seq<usize>, c: int) -> bool {
    let idx = last_nonzero(m, c, m.row_count as int);
    &&& nonzero_count(m, c, m.row_count as int) == 1
    &&& prev[idx] == usize::MAX
    &&& sign_normalized(m, idx, c).n > 0
}

/// The basic variable of each row of `m` once its first `k` columns are looked at
/// (`usize::MAX` where there is none yet).
pub open spec fn chosen_basics(m: BigMatrix, k: nat) -> Seq<usize>
    decreases k,
{
    if k == 0 {
        Seq::new(m.row_count as nat, |r: int| usize::MAX)
    } else {
        let prev = chosen_basics(m, (k - 1) as nat);
        if takes_column(m, prev, k - 1) {
            prev.update(last_nonzero(m, k - 1, m.row_count as int), (k - 1) as usize)
        } else {
            prev
        }
    }
}

/// The columns among the first `k` of `m` that do not become basic, in order.
pub open spec fn free_columns(m: BigMatrix, k: nat) -> Seq<usize>
    decreases k,
{
    if k == 0 {
        Seq::empty()
    } else if takes_column(m, chosen_basics(m, (k - 1) as nat), k - 1) {
        free_columns(m, (k - 1) as nat)
    } else {
        free_columns(m, (k - 1) as nat).push((k - 1) as usize)
    }
}

/// How many of the first `r` entries of `b` are unset (`usize::MAX`).
pub open spec fn unset_count(b: Seq<usize>, r: int) -> int
    decreases r,
{
    if r <= 0 {
        0
    } else {
        unset_count(b, r - 1) + if b[r - 1] == usize::MAX { 1int } else { 0int }
    }
}

/// `b` with its unset entries numbered, in order, from `variables` on: the artificial
/// variables.
pub open spec fn with_artificials(b: Seq<usize>, variables: int) -> Seq<usize> {
    Seq::new(b.len(), |r: int| if b[r] == usize::MAX { (variables + unset_count(b, r)) as usize } else { b[r] })
}

/// Entry `r`, `c` of `m` once its sign is normalized and, where row `r` has the basic
/// variable `b[r]`, divided by its entry in that column.
pub open spec fn built_entry(m: BigMatrix, b: Seq<usize>, r: int, c: int) -> Q {
    if b[r] == usize::MAX {
        sign_normalized(m, r, c)
    } else {
        q_div(sign_normalized(m, r, c), sign_normalized(m, r, b[r] as int))
    }
}

/// `t` is the tableau of the constraints `m` that [Optimize::from_build] hands to the first
/// phase: per constraint, the built entries of the free columns then of the right-hand side,
/// and a zero objective row.
pub open spec fn built_tableau(m: BigMatrix, t: BigMatrix) -> bool {
    let rows = m.row_count as int;
    let variables = m.column_count - 1;
    let b = chosen_basics(m, variables as nat);
    let free = free_columns(m, variables as nat);
    let width = free.len() as int;
    &&& t.wf()
    &&& t.row_count == rows + 1
    &&& t.column_count == width + 1
    &&& forall|r: int, j: int| 0 <= r < rows && 0 <= j < width ==> q_eq(#[trigger] t.entry(r, j), built_entry(m, b, r, free[j] as int))
    &&& forall|r: int| 0 <= r < rows ==> q_eq(#[trigger] t.entry(r, width), built_entry(m, b, r, variables))
    &&& forall|j: int| 0 <= j <= width ==> #[trigger] t.entry(rows, j) == q_int(0)
}

/// A column with a nonzero entry among its first `n` rows has its last one there.
proof fn lemma_last_nonzero(m: BigMatrix, c: int, n: int)
    requires
        nonzero_count(m, c, n) >= 1,
    ensures
        0 <= last_nonzero(m, c, n) < n,
        m.entry(last_nonzero(m, c, n), c).n != 0,
    decreases n,
{
    if n > 0 && m.entry(n - 1, c).n == 0 {
        lemma_last_nonzero(m, c, n - 1);
    }
}

/// With a single nonzero entry among the first `n` rows, every other of them is zero.
proof fn lemma_single_nonzero(m: BigMatrix, c: int, n: int, r: int)
    requires
        nonzero_count(m, c, n) == 1,
        0 <= r < n,
        r != last_nonzero(m, c, n),
    ensures
        m.entry(r, c).n == 0,
    decreases n,
{
    lemma_nonzero_count_nonneg(m, c, n - 1);
    if m.entry(n - 1, c).n != 0 {
        if nonzero_count(m, c, n - 1) > 0 {
            lemma_last_nonzero(m, c, n - 1);
            lemma_count_positive(m, c, n - 1, last_nonzero(m, c, n - 1));
        }
        if r < n - 1 && m.entry(r, c).n != 0 {
            lemma_count_positive(m, c, n - 1, r);
        }
    } else if r < n - 1 {
        lemma_single_nonzero(m, c, n - 1, r);
    }
}

/// Counts are not negative.
proof fn lemma_nonzero_count_nonneg(m: BigMatrix, c: int, n: int)
    ensures
        nonzero_count(m, c, n) >= 0,
    decreases n,
{
    if n > 0 {
        lemma_nonzero_count_nonneg(m, c, n - 1);
    }
}

/// A nonzero entry among the first `n` rows makes the count positive.
proof fn lemma_count_positive(m: BigMatrix, c: int, n: int, r: int)
    requires
        0 <= r < n,
        m.entry(r, c).n != 0,
    ensures
        nonzero_count(m, c, n) >= 1,
    decreases n,
{
    lemma_nonzero_count_nonneg(m, c, n - 1);
    if r < n - 1 {
        lemma_count_positive(m, c, n - 1, r);
    }
}

/// Each chosen basic variable is a column before `k` with a single nonzero entry, in its row.
proof fn lemma_chosen_basics(m: BigMatrix, k: nat)
    requires
        k <= m.column_count,
    ensures
        chosen_basics(m, k).len() == m.row_count,
        forall|r: int|
            0 <= r < m.row_count && #[trigger] chosen_basics(m, k)[r] != usize::MAX ==> chosen_basics(m, k)[r] < k
                && nonzero_count(m, chosen_basics(m, k)[r] as int, m.row_count as int) == 1 && last_nonzero(
                m,
                chosen_basics(m, k)[r] as int,
                m.row_count as int,
            ) == r,
    decreases k,
{
    if k > 0 {
        lemma_chosen_basics(m, (k - 1) as nat);
        let prev = chosen_basics(m, (k - 1) as nat);
        if takes_column(m, prev, k - 1) {
            lemma_last_nonzero(m, k - 1, m.row_count as int);
            let idx = last_nonzero(m, k - 1, m.row_count as int);
            assert(((k - 1) as usize) as int == k - 1);
            assert forall|r: int|
                0 <= r < m.row_count && #[trigger] chosen_basics(m, k)[r] != usize::MAX implies chosen_basics(m, k)[r] < k
                    && nonzero_count(m, chosen_basics(m, k)[r] as int, m.row_count as int) == 1 && last_nonzero(
                    m,
                    chosen_basics(m, k)[r] as int,
                    m.row_count as int,
                ) == r by {
                if r != idx {
                    assert(chosen_basics(m, k)[r] == prev[r]);
                }
            }
        }
    }
}

/// Setting an unset entry below `n` lowers the count of unset ones by one.
proof fn lemma_unset_update(b: Seq<usize>, idx: int, v: usize, n: int)
    requires
        0 <= idx < b.len(),
        b[idx] == usize::MAX,
        v != usize::MAX,
        n <= b.len(),
    ensures
        unset_count(b.update(idx, v), n) == unset_count(b, n) - if 0 <= idx < n { 1int } else { 0int },
    decreases n,
{
    if n > 0 {
        lemma_unset_update(b, idx, v, n - 1);
    }
}

/// Where every entry is unset, all of them count.
proof fn lemma_unset_all(b: Seq<usize>, n: int)
    requires
        0 <= n <= b.len(),
        forall|i: int| 0 <= i < b.len() ==> b[i] == usize::MAX,
    ensures
        unset_count(b, n) == n,
    decreases n,
{
    if n > 0 {
        lemma_unset_all(b, n - 1);
    }
}

/// Counts of unset entries lie between zero and the length counted.
proof fn lemma_unset_bounds(b: Seq<usize>, n: int)
    requires
        0 <= n,
    ensures
        0 <= unset_count(b, n) <= n,
    decreases n,
{
    if n > 0 {
        lemma_unset_bounds(b, n - 1);
    }
}

/// The basic variables that [Optimize::from_build] starts the first phase from.
pub open spec fn built_basics(m: BigMatrix) -> Seq<usize> {
    with_artificials(chosen_basics(m, (m.column_count - 1) as nat), m.column_count - 1)
}

/// The number of artificial variables that [Optimize::from_build] adds.
pub open spec fn built_artificials(m: BigMatrix) -> int {
    unset_count(chosen_basics(m, (m.column_count - 1) as nat), m.row_count as int)
}

/// How many of the first `k` constraints have a slack variable (a nonzero sign).
pub open spec fn slack_count(slacks: Seq<i32>, k: int) -> int
    decreases k,
{
    if k <= 0 {
        0
    } else {
        slack_count(slacks, k - 1) + if slacks[k - 1] != 0 { 1int } else { 0int }
    }
}

/// Slack counts lie between zero and the number of constraints counted.
proof fn lemma_slack_count_bounds(slacks: Seq<i32>, k: int)
    requires
        0 <= k,
    ensures
        0 <= slack_count(slacks, k) <= k,
        forall|j: int| 0 <= j <= k ==> slack_count(slacks, j) <= slack_count(slacks, k),
    decreases k,
{
    if k > 0 {
        lemma_slack_count_bounds(slacks, k - 1);
    }
}

/// `r` is what [OptimizeBuilder::build] gives from `b` when it succeeds: the tableau of `b`
/// ([build_prefix]) sliced into the transform and the constraint table ([sliced]), and the
/// constraint table turned into a tableau by [Optimize::from_build].
pub open spec fn build_outcome(b: OptimizeBuilder, r: Optimize) -> bool {
    exists|t0: BigMatrix, t1: BigMatrix, pr1: Seq<i32>, t1b: BigMatrix, t2: BigMatrix, pr2: Seq<i32>, inner: BigMatrix|
        #![trigger build_prefix(b, t0, t1, pr1, t1b, t2, pr2), sliced(t2, b.size as int, build_slack(b, pr1), build_columns(b), *r.transform, inner)]
        build_prefix(b, t0, t1, pr1, t1b, t2, pr2) && inner.row_count == seq_max(pr2, pr2.len() as int) + 1 - b.size
        && sliced(t2, b.size as int, build_slack(b, pr1), build_columns(b), *r.transform, inner)
        && from_build_outcome(inner, r.transform, r)
}

/// [OptimizeBuilder::build] gives nothing from `b`: fewer independent rows than twice the
/// variables remain, there are fewer constraints than variables, or [Optimize::from_build]
/// fails on the constraint table.
pub open spec fn build_fails(b: OptimizeBuilder) -> bool {
    exists|t0: BigMatrix, t1: BigMatrix, pr1: Seq<i32>, t1b: BigMatrix, t2: BigMatrix, pr2: Seq<i32>|
        #[trigger] build_prefix(b, t0, t1, pr1, t1b, t2, pr2) && (seq_max(pr2, pr2.len() as int) + 1 < 2 * b.size
        || b.slacks.len() < b.size || exists|tr: BigMatrix, inner: BigMatrix|
        #[trigger] sliced(t2, b.size as int, build_slack(b, pr1), build_columns(b), tr, inner)
            && inner.row_count == seq_max(pr2, pr2.len() as int) + 1 - b.size && from_build_fails(inner))
}

/// The number of columns of the tableau that [OptimizeBuilder::build] starts from, before
/// its right-hand sides.
pub open spec fn build_columns(b: OptimizeBuilder) -> int {
    (b.size + b.slacks.len()) * 2 + b.size
}

/// `t` is the tableau that [OptimizeBuilder::build] starts from: one row per constraint, its
/// left-hand side over the variables, its slack sign in the column of its own slack variable
/// (the variables' columns first), its right-hand side last; then as many zero rows as
/// variables.
pub open spec fn builder_table(b: OptimizeBuilder, t: BigMatrix) -> bool {
    let n = b.slacks.len() as int;
    let cc = build_columns(b);
    &&& t.wf()
    &&& t.row_count == n + b.size
    &&& t.column_count == cc + 1
    &&& forall|r: int, c: int| 0 <= r < n && 0 <= c < b.size ==> #[trigger] t.entry(r, c) == b.lefts@[r].values()[c]
    &&& forall|r: int| 0 <= r < n ==> #[trigger] t.entry(r, cc) == b.rights@[r]@
    &&& forall|r: int|
        0 <= r < n && b.slacks@[r] != 0 ==> #[trigger] t.entry(r, b.size + slack_count(b.slacks@, r)) == q_int(
            b.slacks@[r] as int,
        )
    &&& forall|r: int, c: int|
        0 <= r < t.row_count && 0 <= c < t.column_count && (r >= n || (b.size <= c < cc && (b.slacks@[r] == 0 || c
            != b.size + slack_count(b.slacks@, r)))) ==> #[trigger] t.entry(r, c) == q_int(0)
}

/// `after` comes from `before` by Gauss-Jordan reduction (see [crate::math::optimize::gauss_jordan::reduce]):
/// the same shape, the pivots `pr` in place, and the columns below `examined` without a pivot
/// in reduced row echelon form.
pub open spec fn reduced_from(before: BigMatrix, after: BigMatrix, pr: Seq<i32>, examined: int) -> bool {
    &&& after.wf()
    &&& after.row_count == before.row_count
    &&& after.column_count == before.column_count
    &&& exists|row: int|
        0 <= row <= before.row_count && #[trigger] pivots_ok(&after, pr, before.column_count as int, row) && pivot_rows_ordered(pr, row)
    &&& forall|c: int| 0 <= c < examined && #[trigger] pr[c] == -1 ==> free_column_ok(&after, pr, c)
}

/// How many of the first `k` columns have no pivot.
pub open spec fn unpivoted_count(pr: Seq<i32>, k: int) -> int
    decreases k,
{
    if k <= 0 {
        0
    } else {
        unpivoted_count(pr, k - 1) + if pr[k - 1] == -1 { 1int } else { 0int }
    }
}

/// `after` is `before` where, for the `j`-th of the first `size` columns without a pivot
/// (column `c`), row `first_row + j` has a one in column `c`, a one in column `slack + j` and
/// a minus one in column `slack + j + 1`.
pub open spec fn free_rows_added(before: BigMatrix, after: BigMatrix, pr: Seq<i32>, size: int, first_row: int, slack: int) -> bool {
    &&& after.wf()
    &&& after.row_count == before.row_count
    &&& after.column_count == before.column_count
    &&& forall|r: int, c: int|
        0 <= r < before.row_count && 0 <= c < before.column_count ==> #[trigger] after.entry(r, c) == free_row_entry(
            before,
            pr,
            size,
            first_row,
            slack,
            r,
            c,
            size,
        )
}

/// Entry `r`, `c` after the rows of the first `k` columns without a pivot were written.
pub open spec fn free_row_entry(before: BigMatrix, pr: Seq<i32>, size: int, first_row: int, slack: int, r: int, c: int, k: int) -> Q
    decreases k,
{
    if k <= 0 {
        before.entry(r, c)
    } else {
        let j = unpivoted_count(pr, k - 1);
        if pr[k - 1] == -1 && r == first_row + j && c == k - 1 {
            q_int(1)
        } else if pr[k - 1] == -1 && r == first_row + j && c == slack + j {
            q_int(1)
        } else if pr[k - 1] == -1 && r == first_row + j && c == slack + j + 1 {
            q_int(-1)
        } else {
            free_row_entry(before, pr, size, first_row, slack, r, c, k - 1)
        }
    }
}

/// Counts of unpivoted columns lie between zero and the number of columns counted.
proof fn lemma_unpivoted_bounds(pr: Seq<i32>, k: int)
    requires
        0 <= k,
    ensures
        0 <= unpivoted_count(pr, k) <= k,
    decreases k,
{
    if k > 0 {
        lemma_unpivoted_bounds(pr, k - 1);
    }
}

/// The largest of the first `k` entries, or `-1`.
pub open spec fn seq_max(pr: Seq<i32>, k: int) -> int
    decreases k,
{
    if k <= 0 {
        -1
    } else if pr[k - 1] > seq_max(pr, k - 1) {
        pr[k - 1] as int
    } else {
        seq_max(pr, k - 1)
    }
}

/// `transform` holds the rows of the `size` variables of `t`, over the columns of the slack
/// variables (from `size` to `slack`) and the right-hand sides; `inner` holds the next `size`
/// rows the same way, then zero rows.
pub open spec fn sliced(t: BigMatrix, size: int, slack: int, rhs: int, transform: BigMatrix, inner: BigMatrix) -> bool {
    let w = slack - size;
    &&& transform.wf()
    &&& inner.wf()
    &&& transform.row_count == size
    &&& transform.column_count == w + 1
    &&& inner.column_count == w + 1
    &&& forall|r: int, c: int| 0 <= r < size && 0 <= c < w ==> #[trigger] transform.entry(r, c) == t.entry(r, size + c)
    &&& forall|r: int| 0 <= r < size ==> #[trigger] transform.entry(r, w) == t.entry(r, rhs)
    &&& forall|r: int, c: int| 0 <= r < size && 0 <= c < w ==> #[trigger] inner.entry(r, c) == t.entry(size + r, size + c)
    &&& forall|r: int| 0 <= r < size ==> #[trigger] inner.entry(r, w) == t.entry(size + r, rhs)
    &&& forall|r: int, c: int| size <= r < inner.row_count && 0 <= c <= w ==> #[trigger] inner.entry(r, c) == q_int(0)
}

/// The steps of [OptimizeBuilder::build] up to its second reduction: the starting tableau
/// `t0`, its reduction `t1` over the variables' columns (pivots `pr1`), the free variables'
/// rows added to it (`t1b`), and its full reduction `t2` (pivots `pr2`).
pub open spec fn build_prefix(
    b: OptimizeBuilder,
    t0: BigMatrix,
    t1: BigMatrix,
    pr1: Seq<i32>,
    t1b: BigMatrix,
    t2: BigMatrix,
    pr2: Seq<i32>,
) -> bool {
    let n = b.slacks.len() as int;
    &&& builder_table(b, t0)
    &&& reduced_from(t0, t1, pr1, b.size as int)
    &&& free_rows_added(t1, t1b, pr1, b.size as int, n, b.size + slack_count(b.slacks@, n))
    &&& reduced_from(t1b, t2, pr2, build_columns(b) + 1)
}

/// The column after the last slack variable once the free variables' rows are added.
pub open spec fn build_slack(b: OptimizeBuilder, pr1: Seq<i32>) -> int {
    b.size + slack_count(b.slacks@, b.slacks.len() as int) + unpivoted_count(pr1, b.size as int)
}

/// `r` is what [Optimize::from_build] gives for the constraints `inner`.
pub open spec fn from_build_outcome(inner: BigMatrix, transform: Arc<BigMatrix>, r: Optimize) -> bool {
    &&& r.wf()
    &&& r.transform == transform
    &&& r.rows == inner.row_count + 1
    &&& r.cols == inner.column_count - inner.row_count
    &&& forall|c: int| 0 <= c < r.cols ==> (#[trigger] r.objective(c)).n == 0
    &&& exists|t: BigMatrix|
        #[trigger] built_tableau(inner, t) && phase_one(
            t,
            built_basics(inner),
            free_columns(inner, (inner.column_count - 1) as nat),
            built_artificials(inner),
            transform,
            r,
        )
}

/// [Optimize::from_build] gives nothing for the constraints `inner`: fewer variables than
/// constraints, or the first phase fails.
pub open spec fn from_build_fails(inner: BigMatrix) -> bool {
    inner.column_count - 1 < inner.row_count || exists|t: BigMatrix|
        #[trigger] built_tableau(inner, t) && phase_one_fails(
            t,
            built_basics(inner),
            free_columns(inner, (inner.column_count - 1) as nat),
            built_artificials(inner),
        )
}

/// The new right-hand side `y` of the pivot row, `bx / p` with `p` positive, is not negative.
proof fn lemma_pivot_value_nonneg(bx: Q, p: Q, y: Q) -> (k: int)
    requires
        q_wf(bx),
        q_wf(p),
        q_wf(y),
        p.n > 0,
        bx.n >= 0,
        q_eq(y, q_div(bx, p)),
    ensures
        y.n >= 0,
        k == bx.d * p.n,
        k > 0,
        y.n * k == (bx.n * p.d) * y.d,
{
    let k = bx.d * p.n;
    assert(k > 0) by (nonlinear_arith)
        requires
            bx.d > 0,
            p.n > 0,
            k == bx.d * p.n,
    ;
    assert(y.n * k == (bx.n * p.d) * y.d);
    assert(y.n >= 0) by (nonlinear_arith)
        requires
            y.n * k == (bx.n * p.d) * y.d,
            k > 0,
            bx.n >= 0,
            p.d > 0,
            y.d > 0,
    ;
    k
}

/// After a pivot on row `x`, whose right-hand side `bx` and pivot `p` give the new pivot-row
/// value `y`, a row with right-hand side `b` and entry `a` in the pivot column gets `z`: where
/// the ratio test chose `x`, it stays non-negative.
proof fn lemma_rhs_after_pivot(b: Q, a: Q, bx: Q, p: Q, y: Q, z: Q)
    requires
        q_wf(b),
        q_wf(a),
        q_wf(bx),
        q_wf(p),
        q_wf(y),
        q_wf(z),
        p.n > 0,
        b.n >= 0,
        bx.n >= 0,
        q_eq(y, q_div(bx, p)),
        q_eq(z, q_sub(b, q_mul(a, y))),
        a.n > 0 ==> !q_lt(q_div(b, a), q_div(bx, p)),
    ensures
        z.n >= 0,
{
    let k = lemma_pivot_value_nonneg(bx, p, y);
    let m = q_mul(a, y);
    let s = q_sub(b, m);
    assert(s.n == b.n * (a.d * y.d) - (a.n * y.n) * b.d);
    if a.n <= 0 {
        assert(s.n >= 0) by (nonlinear_arith)
            requires
                s.n == b.n * (a.d * y.d) - (a.n * y.n) * b.d,
                a.n <= 0,
                y.n >= 0,
                b.n >= 0,
                b.d > 0,
                a.d > 0,
                y.d > 0,
        ;
    } else {
        assert(q_div(b, a) == (Q { n: b.n * a.d, d: b.d * a.n }));
        assert((b.n * a.d) * k >= (bx.n * p.d) * (b.d * a.n));
        let lhs = (a.n * y.n) * b.d;
        let rhs = b.n * (a.d * y.d);
        assert(lhs * k == y.d * ((bx.n * p.d) * (b.d * a.n))) by (nonlinear_arith)
            requires
                lhs == (a.n * y.n) * b.d,
                y.n * k == (bx.n * p.d) * y.d,
        ;
        assert(y.d * ((bx.n * p.d) * (b.d * a.n)) <= y.d * ((b.n * a.d) * k)) by (nonlinear_arith)
            requires
                (b.n * a.d) * k >= (bx.n * p.d) * (b.d * a.n),
                y.d > 0,
        ;
        assert(rhs * k == y.d * ((b.n * a.d) * k)) by (nonlinear_arith)
            requires
                rhs == b.n * (a.d * y.d),
        ;
        assert(lhs <= rhs) by (nonlinear_arith)
            requires
                lhs * k <= rhs * k,
                k > 0,
        ;
    }
    assert(s.d > 0) by (nonlinear_arith)
        requires
            s.d == b.d * (a.d * y.d),
            b.d > 0,
            a.d > 0,
            y.d > 0,
    ;
    assert(z.n * s.d == s.n * z.d);
    assert(z.n >= 0) by (nonlinear_arith)
        requires
            z.n * s.d == s.n * z.d,
            s.n >= 0,
            s.d > 0,
            z.d > 0,
    ;
}

/// The corner `c` loses `o * y`, with `o` positive and `y` non-negative: it does not grow.
proof fn lemma_corner_after_pivot(c: Q, o: Q, y: Q, z: Q)
    requires
        q_wf(c),
        q_wf(o),
        q_wf(y),
        q_wf(z),
        o.n > 0,
        y.n >= 0,
        q_eq(z, q_sub(c, q_mul(o, y))),
    ensures
        !q_lt(c, z),
{
    let m = q_mul(o, y);
    let s = q_sub(c, m);
    lemma_q_ops_wf(o, y);
    lemma_q_ops_wf(c, m);
    assert(m.n >= 0) by (nonlinear_arith)
        requires
            m.n == o.n * y.n,
            o.n > 0,
            y.n >= 0,
    ;
    assert(c.n * s.d >= s.n * c.d) by (nonlinear_arith)
        requires
            s.n == c.n * m.d - m.n * c.d,
            s.d == c.d * m.d,
            m.n >= 0,
            c.d > 0,
    ;
    assert(q_eq(c, c));
    lemma_q_lt_cong(c, c, z, s);
}

/// A simplex step keeps the basic solution feasible, and does not raise the corner: where
/// column `e` enters and row `x` leaves by the ratio test, the pivoted tableau has no negative
/// right-hand side if the tableau had none, and its corner is not above the old one.
pub proof fn lemma_step_keeps_feasible(t: Optimize, new: Optimize, e: int, x: int)
    requires
        t.wf(),
        t.feasible(),
        t.entering_column(e),
        t.exiting_row(e, x),
        t.pivoted(new, e, x),
    ensures
        new.feasible(),
        !q_lt(t.corner(), new.corner()),
{
    let rhs = t.cols_m1 as int;
    let p = t.table.entry(x, e);
    let bx = t.table.entry(x, rhs);
    let y = new.table.entry(x, rhs);
    lemma_entry_wf(&t.table, x, e);
    lemma_entry_wf(&t.table, x, rhs);
    lemma_entry_wf(&new.table, x, rhs);
    assert(q_eq(y, q_div(bx, p)));
    assert forall|r: int| 0 <= r < new.rows_m1 implies (#[trigger] new.table.entry(r, new.cols_m1 as int)).n >= 0 by {
        if r == x {
            lemma_pivot_value_nonneg(bx, p, y);
        } else {
            let a = t.table.entry(r, e);
            let b = t.table.entry(r, rhs);
            let z = new.table.entry(r, rhs);
            lemma_entry_wf(&t.table, r, e);
            lemma_entry_wf(&t.table, r, rhs);
            lemma_entry_wf(&new.table, r, rhs);
            assert(q_eq(z, q_sub(b, q_mul(a, y))));
            if a.n > 0 {
                assert(!q_lt(t.ratio(r, e), t.ratio(x, e)));
            }
            lemma_rhs_after_pivot(b, a, bx, p, y, z);
        }
    }
    let m = t.rows_m1 as int;
    lemma_entry_wf(&t.table, m, e);
    lemma_entry_wf(&t.table, m, rhs);
    lemma_entry_wf(&new.table, m, rhs);
    lemma_pivot_value_nonneg(bx, p, y);
    assert(q_eq(new.corner(), q_sub(t.corner(), q_mul(t.objective(e), y))));
    lemma_corner_after_pivot(t.corner(), t.objective(e), y, new.corner());
}

} // verus!
