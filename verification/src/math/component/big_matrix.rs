use crate::math::component::arith::{rat_add, rat_div, rat_eq, rat_mul, rat_sub};
use crate::math::component::big_vector::{
    all_wf, rat_values, view_pos, Dot,
    OwnedBigVector, Vector, ViewBigVector,
};
use crate::math::component::rational::{
    q_add, q_div, q_dot, q_eq, q_int, q_mul, q_sub, wf_rat, BigRational, Q,
};
use crate::util::util::filled_vec;
use vstd::prelude::*;

verus! {

/// A matrix of rationals stored row after row.
pub struct BigMatrix {
    pub numbers: Vec<BigRational>,
    pub row_count: usize,
    pub column_count: usize,
}

/// Position `col + column_count * row` of a row-major matrix is below its size.
pub proof fn lemma_mat_index(rows: int, cols: int, row: int, col: int)
    requires
        0 <= row < rows,
        0 <= col < cols,
    ensures
        0 <= col + cols * row < rows * cols,
        0 <= cols * row,
        cols * row + cols <= rows * cols,
        rows * cols == cols * rows,
{
    vstd::arithmetic::mul::lemma_mul_is_commutative(rows, cols);
    assert(0 <= cols * row) by (nonlinear_arith)
        requires
            0 <= row,
            0 <= cols,
    ;
    assert(cols * row + cols <= rows * cols) by (nonlinear_arith)
        requires
            row < rows,
            0 <= cols,
    ;
}

/// An entry of a well-formed matrix has a positive denominator.
pub proof fn lemma_entry_wf(m: &BigMatrix, r: int, c: int)
    requires
        m.wf(),
        0 <= r < m.row_count,
        0 <= c < m.column_count,
    ensures
        crate::math::component::rational::q_wf(m.entry(r, c)),
{
    lemma_mat_index(m.row_count as int, m.column_count as int, r, c);
    assert(wf_rat(m.numbers@[c + m.column_count * r]));
}

impl BigMatrix {
    /// Well-formed: one number per entry, each with a positive denominator.
    pub open spec fn wf(&self) -> bool {
        &&& self.numbers.len() == self.row_count * self.column_count
        &&& all_wf(self.numbers@)
    }

    /// The entries row after row.
    pub open spec fn values(&self) -> Seq<Q> {
        rat_values(self.numbers@)
    }

    /// The entry at `row`, `col`.
    pub open spec fn entry(&self, row: int, col: int) -> Q {
        self.numbers@[col + self.column_count * row]@
    }

    /// The values of row `row`.
    pub open spec fn row_values(&self, row: int) -> Seq<Q> {
        Seq::new(self.column_count as nat, |c: int| self.entry(row, c))
    }

    /// The values of column `col`.
    pub open spec fn column_values(&self, col: int) -> Seq<Q> {
        Seq::new(self.row_count as nat, |r: int| self.entry(r, col))
    }

    /// The identity matrix of the given size.
    pub fn identity(size: usize) -> (m: BigMatrix)
        requires
            size * size <= usize::MAX,
        ensures
            m.wf(),
            m.row_count == size,
            m.column_count == size,
            forall|r: int, c: int|
                0 <= r < size && 0 <= c < size ==> #[trigger] m.entry(r, c) == q_int(
                    if r == c {
                        1
                    } else {
                        0
                    },
                ),
    {
        let mut matrix = Self::new(size, size);
        proof {
            assert forall|r: int, c: int| 0 <= r < size && 0 <= c < size implies #[trigger] matrix.entry(r, c)
                == q_int(0) by {
                lemma_mat_index(size as int, size as int, r, c);
            }
        }
        let mut i: usize = 0;
        while i < size
            invariant
                matrix.wf(),
                matrix.row_count == size,
                matrix.column_count == size,
                i <= size,
                forall|r: int, c: int|
                    0 <= r < size && 0 <= c < size ==> #[trigger] matrix.entry(r, c) == q_int(
                        if r == c && r < i {
                            1
                        } else {
                            0
                        },
                    ),
            decreases size - i,
        {
            proof {
                lemma_mat_index(size as int, size as int, i as int, i as int);
            }
            matrix.set(i, i, BigRational::one());
            i = i + 1;
        }
        matrix
    }

    /// The zero matrix of the given shape.
    pub fn new(row_count: usize, column_count: usize) -> (m: BigMatrix)
        requires
            row_count * column_count <= usize::MAX,
        ensures
            m.wf(),
            m.row_count == row_count,
            m.column_count == column_count,
            forall|i: int| 0 <= i < m.numbers.len() ==> (#[trigger] m.numbers@[i])@ == q_int(0),
    {
        let zero = |_i: usize| -> (r: BigRational)
            ensures
                wf_rat(r),
                r@ == q_int(0),
            { BigRational::zero() };
        let numbers = filled_vec(row_count * column_count, zero);
        BigMatrix { numbers, row_count, column_count }
    }

    /// The matrix whose entry at `row`, `col` is `generator(row, col)`.
    pub fn new_provided<F: Fn(usize, usize) -> BigRational>(
        row_count: usize,
        column_count: usize,
        generator: F,
    ) -> (m: BigMatrix)
        requires
            row_count * column_count <= usize::MAX,
            forall|r: usize, c: usize|
                r < row_count && c < column_count ==> call_requires(generator, (r, c)),
            forall|r: usize, c: usize, x: BigRational| #[trigger]
                call_ensures(generator, (r, c), x) ==> wf_rat(x),
        ensures
            m.wf(),
            m.row_count == row_count,
            m.column_count == column_count,
            forall|r: int, c: int|
                0 <= r < row_count && 0 <= c < column_count ==> call_ensures(
                    generator,
                    (r as usize, c as usize),
                    #[trigger] m.numbers@[c + column_count * r],
                ),
    {
        let mut numbers: Vec<BigRational> = Vec::with_capacity(row_count * column_count);
        let mut row: usize = 0;
        while row < row_count
            invariant
                row <= row_count,
                row_count * column_count <= usize::MAX,
                numbers.len() == column_count * row,
                all_wf(numbers@),
                forall|r: usize, c: usize|
                    r < row_count && c < column_count ==> call_requires(generator, (r, c)),
                forall|r: usize, c: usize, x: BigRational| #[trigger]
                    call_ensures(generator, (r, c), x) ==> wf_rat(x),
                forall|r: int, c: int|
                    0 <= r < row && 0 <= c < column_count ==> call_ensures(
                        generator,
                        (r as usize, c as usize),
                        #[trigger] numbers@[c + column_count * r],
                    ),
            decreases row_count - row,
        {
            proof {
                if column_count > 0 {
                    lemma_mat_index(row_count as int, column_count as int, row as int, 0);
                } else {
                    assert(column_count * row == 0);
                }
            }
            let mut col: usize = 0;
            while col < column_count
                invariant
                    row < row_count,
                    col <= column_count,
                    row_count * column_count <= usize::MAX,
                    column_count * row + column_count <= row_count * column_count,
                    numbers.len() == column_count * row + col,
                    all_wf(numbers@),
                    forall|r: usize, c: usize|
                        r < row_count && c < column_count ==> call_requires(generator, (r, c)),
                    forall|r: usize, c: usize, x: BigRational| #[trigger]
                        call_ensures(generator, (r, c), x) ==> wf_rat(x),
                    forall|r: int, c: int|
                        (0 <= r < row && 0 <= c < column_count) || (r == row && 0 <= c < col)
                            ==> call_ensures(
                            generator,
                            (r as usize, c as usize),
                            #[trigger] numbers@[c + column_count * r],
                        ),
                decreases column_count - col,
            {
                let x = generator(row, col);
                numbers.push(x);
                proof {
                    assert forall|r: int, c: int|
                        (0 <= r < row && 0 <= c < column_count) || (r == row && 0 <= c < col + 1)
                            implies call_ensures(
                            generator,
                            (r as usize, c as usize),
                            #[trigger] numbers@[c + column_count * r],
                        ) by {
                        if r < row {
                            lemma_mat_index(row as int, column_count as int, r, c);
                        }
                        if r == row {
                            assert(c + column_count * r <= column_count * row + col);
                        }
                    }
                }
                col = col + 1;
            }
            proof {
                assert(column_count * row + column_count == column_count * (row + 1)) by (nonlinear_arith);
            }
            row = row + 1;
        }
        proof {
            assert(numbers.len() == row_count * column_count) by (nonlinear_arith)
                requires
                    numbers.len() == column_count * row_count,
            ;
        }
        BigMatrix { numbers, row_count, column_count }
    }

    /// Whether the matrix has as many rows as columns.
    pub fn is_square(&self) -> (b: bool)
        ensures
            b == (self.row_count == self.column_count),
    {
        self.row_count == self.column_count
    }

    /// The entry at `row`, `col`: the number at position `col + column_count * row`.
    pub fn get(&self, row: usize, col: usize) -> (r: &BigRational)
        requires
            self.wf(),
            col + self.column_count * row < self.numbers.len(),
        ensures
            wf_rat(*r),
            r@ == self.entry(row as int, col as int),
    {
        proof {
            lemma_flat_index(self.column_count as int, row as int, col as int);
        }
        &self.numbers[col + self.column_count * row]
    }

    /// Sets the entry at `row`, `col`: the number at position `col + column_count * row`.
    pub fn set(&mut self, row: usize, col: usize, value: BigRational)
        requires
            old(self).wf(),
            col + old(self).column_count * row < old(self).numbers.len(),
            wf_rat(value),
        ensures
            final(self).wf(),
            final(self).row_count == old(self).row_count,
            final(self).column_count == old(self).column_count,
            final(self).values() == old(self).values().update(col + old(self).column_count * row, value@),
            col < old(self).column_count ==> forall|r: int, c: int|
                0 <= r < final(self).row_count && 0 <= c < final(self).column_count ==> #[trigger] final(self).entry(r, c)
                    == if r == row && c == col {
                    value@
                } else {
                    old(self).entry(r, c)
                },
    {
        proof {
            lemma_flat_index(self.column_count as int, row as int, col as int);
        }
        let ghost v = value@;
        let ghost before = self.values();
        self.numbers[col + self.column_count * row] = value;
        proof {
            assert(self.values() =~= before.update(col + self.column_count * row, v));
            if col < self.column_count {
            assert forall|r: int, c: int|
                0 <= r < self.row_count && 0 <= c < self.column_count implies #[trigger] self.entry(r, c)
                    == if r == row && c == col {
                    v
                } else {
                    old(self).entry(r, c)
                } by {
                lemma_mat_index(self.row_count as int, self.column_count as int, r, c);
                if c + self.column_count * r == col + self.column_count * row {
                    lemma_index_injective(self.column_count as int, r, c, row as int, col as int);
                }
                assert(self.values()[c + self.column_count * r] == self.entry(r, c));
            }
            }
        }
    }

    /// A view of row `row`.
    pub fn get_row(&self, row: usize) -> (v: ViewBigVector<'_>)
        requires
            self.wf(),
            row < self.row_count,
        ensures
            v.wf_vec(),
            v.values() == self.row_values(row as int),
    {
        proof {
            if self.column_count > 0 {
                lemma_mat_index(self.row_count as int, self.column_count as int, row as int, 0);
            }
            vstd::arithmetic::mul::lemma_mul_is_commutative(row as int, self.column_count as int);
            if self.column_count == 0 {
                vstd::arithmetic::mul::lemma_mul_by_zero_is_zero(row as int);
            }
            assert(row * self.column_count <= self.numbers.len());
        }
        let v = ViewBigVector::new(self.column_count, &self.numbers, row * self.column_count, 1);
        proof {
            assert forall|i: int| 0 <= i < v.dimension implies #[trigger] view_pos(v.start_pos, v.step, i)
                < v.numbers.len() by {
                lemma_mat_index(self.row_count as int, self.column_count as int, row as int, i);
            }
            assert forall|i: int| 0 <= i < self.column_count implies v.values()[i] == self.row_values(row as int)[i] by {
                assert(view_pos(v.start_pos, v.step, i) == i + self.column_count * row);
            }
            assert(v.values() =~= self.row_values(row as int));
        }
        v
    }

    /// A view of column `column`.
    pub fn get_column(&self, column: usize) -> (v: ViewBigVector<'_>)
        requires
            self.wf(),
            column < self.column_count,
        ensures
            v.wf_vec(),
            v.values() == self.column_values(column as int),
    {
        let v = ViewBigVector::new(self.row_count, &self.numbers, column, self.column_count);
        proof {
            assert forall|i: int| 0 <= i < v.dimension implies #[trigger] view_pos(v.start_pos, v.step, i)
                < v.numbers.len() by {
                lemma_mat_index(self.row_count as int, self.column_count as int, i, column as int);
            }
            assert(v.values() =~= self.column_values(column as int));
        }
        v
    }
}

/// A position `col + cols * row` below a length fits its parts.
pub proof fn lemma_flat_index(cols: int, row: int, col: int)
    requires
        0 <= cols,
        0 <= row,
        0 <= col,
    ensures
        0 <= cols * row <= col + cols * row,
{
    vstd::arithmetic::mul::lemma_mul_nonnegative(cols, row);
}

/// Distinct positions of a row-major matrix are distinct.
pub proof fn lemma_index_injective(cols: int, r1: int, c1: int, r2: int, c2: int)
    requires
        0 <= c1 < cols,
        0 <= c2 < cols,
        0 <= r1,
        0 <= r2,
        c1 + cols * r1 == c2 + cols * r2,
    ensures
        r1 == r2,
        c1 == c2,
{
    if r1 < r2 {
        assert(cols * r1 + cols <= cols * r2) by (nonlinear_arith)
            requires
                r1 < r2,
                cols >= 0,
        ;
    } else if r2 < r1 {
        assert(cols * r2 + cols <= cols * r1) by (nonlinear_arith)
            requires
                r2 < r1,
                cols >= 0,
        ;
    }
}


/// Exchanges the numbers at positions `p` and `q`.
fn swap_numbers(v: &mut Vec<BigRational>, p: usize, q: usize)
    requires
        p < old(v).len(),
        q < old(v).len(),
    ensures
        final(v)@ == old(v)@.update(p as int, old(v)@[q as int]).update(q as int, old(v)@[p as int]),
{
    if p != q {
        let mut tmp = BigRational::zero();
        std::mem::swap(&mut tmp, &mut v[p]);
        std::mem::swap(&mut tmp, &mut v[q]);
        v[p] = tmp;
        proof {
            assert(v@ =~= old(v)@.update(p as int, old(v)@[q as int]).update(q as int, old(v)@[p as int]));
        }
    } else {
        proof {
            assert(v@ =~= old(v)@.update(p as int, old(v)@[q as int]).update(q as int, old(v)@[p as int]));
        }
    }
}

/// Every position `col + cols * row` with `row < rows` and `col < width` is below `len`.
pub open spec fn covers(cols: int, len: int, rows: int, width: int) -> bool {
    forall|r: int, c: int| 0 <= r < rows && 0 <= c < width ==> #[trigger] (c + cols * r) < len
}

/// Which row of a transposed copy last wrote flat position `k`: the largest `i < n` with
/// `cols * i <= k < cols * i + rows`, if any.
pub open spec fn last_writer(cols: int, rows: int, n: nat, k: int) -> Option<int>
    decreases n,
{
    if n == 0 {
        None
    } else if cols * (n - 1) <= k < cols * (n - 1) + rows {
        Some(n - 1)
    } else {
        last_writer(cols, rows, (n - 1) as nat, k)
    }
}

impl BigMatrix {
    /// Writes `value` into row `row`: position `column_count * row + i` gets `value[i]`.
    pub fn set_row(&mut self, row: usize, value: OwnedBigVector)
        requires
            old(self).wf(),
            value.wf_vec(),
            value.dimension == 0 || (value.dimension - 1) + old(self).column_count * row < old(self).numbers.len(),
        ensures
            final(self).wf(),
            final(self).row_count == old(self).row_count,
            final(self).column_count == old(self).column_count,
            final(self).values() == Seq::new(
                old(self).values().len(),
                |k: int|
                    if old(self).column_count * row <= k < old(self).column_count * row + value.dimension {
                        value.values()[k - old(self).column_count * row]
                    } else {
                        old(self).values()[k]
                    },
            ),
            value.dimension == old(self).column_count && row < old(self).row_count ==> forall|r: int, c: int|
                0 <= r < old(self).row_count && 0 <= c < old(self).column_count ==> #[trigger] final(self).entry(r, c) == if r == row {
                    value.values()[c]
                } else {
                    old(self).entry(r, c)
                },
    {
        let ghost base = self.column_count * row;
        let ghost vals = value.values();
        let ghost old_vals = self.values();
        let n = value.dimension;
        let mut numbers = value.numbers;
        let mut i: usize = 0;
        proof {
            lemma_flat_index(self.column_count as int, row as int, 0);
        }
        while i < n
            invariant
                self.wf(),
                self.row_count == old(self).row_count,
                self.column_count == old(self).column_count,
                base == self.column_count * row,
                n == vals.len(),
                numbers.len() == n,
                all_wf(numbers@),
                forall|j: int| i <= j < n ==> (#[trigger] numbers@[j])@ == vals[j],
                n == 0 || (n - 1) + base < self.numbers.len(),
                i <= n,
                old_vals.len() == self.values().len(),
                self.values() == Seq::new(
                    old_vals.len(),
                    |k: int|
                        if base <= k < base + i {
                            vals[k - base]
                        } else {
                            old_vals[k]
                        },
                ),
            decreases n - i,
        {
            let mut x = BigRational::zero();
            assert(numbers@[i as int]@ == vals[i as int]);
            std::mem::swap(&mut x, &mut numbers[i]);
            proof {
                lemma_flat_index(self.column_count as int, row as int, i as int);
            }
            let ghost before = self.values();
            self.set(row, i, x);
            proof {
                assert(self.values() =~= Seq::new(
                    old_vals.len(),
                    |k: int|
                        if base <= k < base + i + 1 {
                            vals[k - base]
                        } else {
                            old_vals[k]
                        },
                ));
            }
            i = i + 1;
        }
        proof {
            if n == self.column_count && row < self.row_count {
                let cols = self.column_count as int;
                assert forall|r: int, c: int| 0 <= r < self.row_count && 0 <= c < self.column_count implies #[trigger] self.entry(r, c)
                    == if r == row {
                    vals[c]
                } else {
                    old(self).entry(r, c)
                } by {
                    lemma_mat_index(self.row_count as int, cols, r, c);
                    let k = c + cols * r;
                    assert(self.values()[k] == self.entry(r, c));
                    assert(old_vals[k] == old(self).entry(r, c));
                    if r < row {
                        assert(cols * r + cols <= cols * row) by (nonlinear_arith)
                            requires
                                r < row,
                                cols >= 0,
                        ;
                    } else if r > row {
                        assert(cols * row + cols <= cols * r) by (nonlinear_arith)
                            requires
                                r > row,
                                cols >= 0,
                        ;
                    }
                }
            }
        }
    }

    /// Writes `value` into column `column`: position `column + column_count * i` gets `value[i]`.
    pub fn set_column(&mut self, column: usize, value: OwnedBigVector)
        requires
            old(self).wf(),
            value.wf_vec(),
            forall|i: int| 0 <= i < value.dimension ==> #[trigger] (column + old(self).column_count * i) < old(self).numbers.len(),
        ensures
            final(self).wf(),
            final(self).row_count == old(self).row_count,
            final(self).column_count == old(self).column_count,
            forall|i: int| 0 <= i < value.dimension ==> final(self).values()[column + old(self).column_count * i] == #[trigger] value.values()[i],
            forall|k: int| 0 <= k < old(self).values().len() && (forall|i: int| 0 <= i < value.dimension ==> k != #[trigger] (column + old(self).column_count * i))
                ==> final(self).values()[k] == old(self).values()[k],
    {
        let ghost vals = value.values();
        let ghost old_vals = self.values();
        let n = value.dimension;
        let mut numbers = value.numbers;
        let mut i: usize = 0;
        while i < n
            invariant
                self.wf(),
                self.row_count == old(self).row_count,
                self.column_count == old(self).column_count,
                n == vals.len(),
                numbers.len() == n,
                all_wf(numbers@),
                forall|j: int| i <= j < n ==> (#[trigger] numbers@[j])@ == vals[j],
                forall|j: int| 0 <= j < n ==> #[trigger] (column + self.column_count * j) < self.numbers.len(),
                i <= n,
                old_vals.len() == self.values().len(),
                forall|j: int| 0 <= j < i ==> self.values()[column + self.column_count * j] == #[trigger] vals[j],
                forall|k: int| 0 <= k < old_vals.len() && (forall|j: int| 0 <= j < i ==> k != #[trigger] (column + self.column_count * j))
                    ==> self.values()[k] == old_vals[k],
            decreases n - i,
        {
            let mut x = BigRational::zero();
            assert(numbers@[i as int]@ == vals[i as int]);
            std::mem::swap(&mut x, &mut numbers[i]);
            proof {
                assert(column + self.column_count * i < self.numbers.len());
                lemma_flat_index(self.column_count as int, i as int, column as int);
                if self.column_count == 0 {
                    vstd::arithmetic::mul::lemma_mul_by_zero_is_zero(self.row_count as int);
                    assert(false);
                }
            }
            let ghost before = self.values();
            self.set(i, column, x);
            proof {
                assert forall|j: int| 0 <= j < i + 1 implies self.values()[column + self.column_count * j] == #[trigger] vals[j] by {
                    if j < i {
                        vstd::arithmetic::mul::lemma_mul_strict_inequality(j, i as int, self.column_count as int);
                        vstd::arithmetic::mul::lemma_mul_is_commutative(j, self.column_count as int);
                        vstd::arithmetic::mul::lemma_mul_is_commutative(i as int, self.column_count as int);
                    }
                }
            }
            i = i + 1;
        }
    }

    /// Exchanges rows `row1` and `row2`.
    pub fn swap_rows(&mut self, row1: usize, row2: usize)
        requires
            old(self).wf(),
            old(self).column_count == 0 || (row1 < old(self).row_count && row2 < old(self).row_count),
        ensures
            final(self).wf(),
            final(self).row_count == old(self).row_count,
            final(self).column_count == old(self).column_count,
            forall|r: int, c: int|
                0 <= r < old(self).row_count && 0 <= c < old(self).column_count ==> #[trigger] final(self).entry(r, c)
                    == old(self).entry(
                    if r == row1 {
                        row2 as int
                    } else if r == row2 {
                        row1 as int
                    } else {
                        r
                    },
                    c,
                ),
    {
        let cols = self.column_count;
        let mut i: usize = 0;
        while i < cols
            invariant
                self.wf(),
                self.row_count == old(self).row_count,
                self.column_count == cols,
                cols == old(self).column_count,
                cols == 0 || (row1 < self.row_count && row2 < self.row_count),
                i <= cols,
                forall|r: int, c: int|
                    0 <= r < self.row_count && 0 <= c < cols ==> #[trigger] self.entry(r, c) == old(self).entry(
                        if c < i && r == row1 {
                            row2 as int
                        } else if c < i && r == row2 {
                            row1 as int
                        } else {
                            r
                        },
                        c,
                    ),
            decreases cols - i,
        {
            proof {
                lemma_mat_index(self.row_count as int, cols as int, row1 as int, i as int);
                lemma_mat_index(self.row_count as int, cols as int, row2 as int, i as int);
            }
            let ghost bm = *self;
            swap_numbers(&mut self.numbers, i + cols * row1, i + cols * row2);
            proof {
                let p1 = i + cols * row1;
                let p2 = i + cols * row2;
                assert forall|r: int, c: int|
                    0 <= r < self.row_count && 0 <= c < cols implies #[trigger] self.entry(r, c) == old(self).entry(
                        if c < i + 1 && r == row1 {
                            row2 as int
                        } else if c < i + 1 && r == row2 {
                            row1 as int
                        } else {
                            r
                        },
                        c,
                    ) by {
                    lemma_mat_index(self.row_count as int, cols as int, r, c);
                    let k = c + cols * r;
                    assert(self.entry(r, c) == self.numbers@[k]@);
                    assert(bm.entry(row1 as int, i as int) == bm.numbers@[p1]@);
                    assert(bm.entry(row2 as int, i as int) == bm.numbers@[p2]@);
                    assert(bm.entry(row1 as int, i as int) == old(self).entry(row1 as int, i as int));
                    assert(bm.entry(row2 as int, i as int) == old(self).entry(row2 as int, i as int));
                    if k == p1 {
                        lemma_index_injective(cols as int, r, c, row1 as int, i as int);
                    } else if k == p2 {
                        lemma_index_injective(cols as int, r, c, row2 as int, i as int);
                    } else {
                        assert(self.numbers@[k] == bm.numbers@[k]);
                        assert(bm.entry(r, c) == bm.numbers@[k]@);
                        if c == i {
                            assert(r != row1 && r != row2);
                        }
                    }
                }
            }
            i = i + 1;
        }
    }

    /// Exchanges the entries at `row1`, `col1` and `row2`, `col2`.
    pub fn swap_elements(&mut self, row1: usize, col1: usize, row2: usize, col2: usize)
        requires
            old(self).wf(),
            col1 + old(self).column_count * row1 < old(self).numbers.len(),
            col2 + old(self).column_count * row2 < old(self).numbers.len(),
        ensures
            final(self).wf(),
            final(self).row_count == old(self).row_count,
            final(self).column_count == old(self).column_count,
            final(self).numbers@ == old(self).numbers@.update(
                col1 + old(self).column_count * row1,
                old(self).numbers@[col2 + old(self).column_count * row2],
            ).update(
                col2 + old(self).column_count * row2,
                old(self).numbers@[col1 + old(self).column_count * row1],
            ),
            row1 < old(self).row_count && row2 < old(self).row_count && col1 < old(self).column_count && col2
                < old(self).column_count ==> forall|r: int, c: int|
                0 <= r < old(self).row_count && 0 <= c < old(self).column_count ==> #[trigger] final(self).entry(r, c)
                    == if r == row1 && c == col1 {
                    old(self).entry(row2 as int, col2 as int)
                } else if r == row2 && c == col2 {
                    old(self).entry(row1 as int, col1 as int)
                } else {
                    old(self).entry(r, c)
                },
    {
        proof {
            lemma_flat_index(self.column_count as int, row1 as int, col1 as int);
            lemma_flat_index(self.column_count as int, row2 as int, col2 as int);
        }
        swap_numbers(
            &mut self.numbers,
            col1 + self.column_count * row1,
            col2 + self.column_count * row2,
        );
        proof {
            let cols = self.column_count as int;
            if row1 < self.row_count && row2 < self.row_count && col1 < cols && col2 < cols {
                assert forall|r: int, c: int| 0 <= r < old(self).row_count && 0 <= c < cols implies #[trigger] self.entry(r, c)
                    == if r == row1 && c == col1 {
                    old(self).entry(row2 as int, col2 as int)
                } else if r == row2 && c == col2 {
                    old(self).entry(row1 as int, col1 as int)
                } else {
                    old(self).entry(r, c)
                } by {
                    lemma_mat_index(self.row_count as int, cols, r, c);
                    let k = c + cols * r;
                    let p1 = col1 + cols * row1;
                    let p2 = col2 + cols * row2;
                    if k == p1 {
                        lemma_index_injective(cols, r, c, row1 as int, col1 as int);
                    }
                    if k == p2 {
                        lemma_index_injective(cols, r, c, row2 as int, col2 as int);
                    }
                }
            }
        }
    }
}

impl BigMatrix {
    /// `row += other` entrywise.
    pub fn row_add_assign<T: Vector>(&mut self, row: usize, other: &T)
        requires
            old(self).wf(),
            row < old(self).row_count,
            other.wf_vec(),
            old(self).column_count <= other.values().len(),
        ensures
            final(self).wf(),
            final(self).row_count == old(self).row_count,
            final(self).column_count == old(self).column_count,
            forall|r: int, c: int|
                0 <= r < old(self).row_count && 0 <= c < old(self).column_count && r != row ==> #[trigger] final(self).entry(r, c)
                    == old(self).entry(r, c),
            forall|c: int|
                0 <= c < old(self).column_count ==> q_eq(#[trigger] final(self).entry(row as int, c), q_add(old(self).entry(row as int, c), other.values()[c])),
    {
        let cols = self.column_count;
        let mut c: usize = 0;
        while c < cols
            invariant
                self.wf(),
                self.row_count == old(self).row_count,
                self.column_count == cols,
                cols == old(self).column_count,
                row < self.row_count,
                other.wf_vec(),
                cols <= other.values().len(),
                c <= cols,
                forall|r: int, cc: int|
                    0 <= r < self.row_count && 0 <= cc < cols && (r != row || cc >= c) ==> #[trigger] self.entry(r, cc)
                        == old(self).entry(r, cc),
                forall|cc: int| 0 <= cc < c ==> q_eq(#[trigger] self.entry(row as int, cc), q_add(old(self).entry(row as int, cc), other.values()[cc])),
            decreases cols - c,
        {
            proof {
                lemma_mat_index(self.row_count as int, cols as int, row as int, c as int);
            }
            let x = rat_add(self.get(row, c), other.get(c));
            self.set(row, c, x);
            c = c + 1;
        }
    }

    /// `row -= other` entrywise.
    pub fn row_sub_assign<T: Vector>(&mut self, row: usize, other: &T)
        requires
            old(self).wf(),
            row < old(self).row_count,
            other.wf_vec(),
            old(self).column_count <= other.values().len(),
        ensures
            final(self).wf(),
            final(self).row_count == old(self).row_count,
            final(self).column_count == old(self).column_count,
            forall|r: int, c: int|
                0 <= r < old(self).row_count && 0 <= c < old(self).column_count && r != row ==> #[trigger] final(self).entry(r, c)
                    == old(self).entry(r, c),
            forall|c: int|
                0 <= c < old(self).column_count ==> q_eq(#[trigger] final(self).entry(row as int, c), q_sub(old(self).entry(row as int, c), other.values()[c])),
    {
        let cols = self.column_count;
        let mut c: usize = 0;
        while c < cols
            invariant
                self.wf(),
                self.row_count == old(self).row_count,
                self.column_count == cols,
                cols == old(self).column_count,
                row < self.row_count,
                other.wf_vec(),
                cols <= other.values().len(),
                c <= cols,
                forall|r: int, cc: int|
                    0 <= r < self.row_count && 0 <= cc < cols && (r != row || cc >= c) ==> #[trigger] self.entry(r, cc)
                        == old(self).entry(r, cc),
                forall|cc: int| 0 <= cc < c ==> q_eq(#[trigger] self.entry(row as int, cc), q_sub(old(self).entry(row as int, cc), other.values()[cc])),
            decreases cols - c,
        {
            proof {
                lemma_mat_index(self.row_count as int, cols as int, row as int, c as int);
            }
            let x = rat_sub(self.get(row, c), other.get(c));
            self.set(row, c, x);
            c = c + 1;
        }
    }

    /// `row *= r` entrywise.
    pub fn row_mul_assign(&mut self, row: usize, r: &BigRational)
        requires
            old(self).wf(),
            row < old(self).row_count,
            wf_rat(*r),
        ensures
            final(self).wf(),
            final(self).row_count == old(self).row_count,
            final(self).column_count == old(self).column_count,
            forall|r: int, c: int|
                0 <= r < old(self).row_count && 0 <= c < old(self).column_count && r != row ==> #[trigger] final(self).entry(r, c)
                    == old(self).entry(r, c),
            forall|c: int|
                0 <= c < old(self).column_count ==> q_eq(#[trigger] final(self).entry(row as int, c), q_mul(old(self).entry(row as int, c), r@)),
    {
        let cols = self.column_count;
        let mut c: usize = 0;
        while c < cols
            invariant
                self.wf(),
                self.row_count == old(self).row_count,
                self.column_count == cols,
                cols == old(self).column_count,
                row < self.row_count,
                wf_rat(*r),
                c <= cols,
                forall|r: int, cc: int|
                    0 <= r < self.row_count && 0 <= cc < cols && (r != row || cc >= c) ==> #[trigger] self.entry(r, cc)
                        == old(self).entry(r, cc),
                forall|cc: int| 0 <= cc < c ==> q_eq(#[trigger] self.entry(row as int, cc), q_mul(old(self).entry(row as int, cc), r@)),
            decreases cols - c,
        {
            proof {
                lemma_mat_index(self.row_count as int, cols as int, row as int, c as int);
            }
            let x = rat_mul(self.get(row, c), r);
            self.set(row, c, x);
            c = c + 1;
        }
    }

    /// `row /= r` entrywise; `r` is nonzero.
    pub fn row_div_assign(&mut self, row: usize, r: &BigRational)
        requires
            old(self).wf(),
            row < old(self).row_count,
            wf_rat(*r),
            r@.n != 0,
        ensures
            final(self).wf(),
            final(self).row_count == old(self).row_count,
            final(self).column_count == old(self).column_count,
            forall|r: int, c: int|
                0 <= r < old(self).row_count && 0 <= c < old(self).column_count && r != row ==> #[trigger] final(self).entry(r, c)
                    == old(self).entry(r, c),
            forall|c: int|
                0 <= c < old(self).column_count ==> q_eq(#[trigger] final(self).entry(row as int, c), q_div(old(self).entry(row as int, c), r@)),
    {
        let cols = self.column_count;
        let mut c: usize = 0;
        while c < cols
            invariant
                self.wf(),
                self.row_count == old(self).row_count,
                self.column_count == cols,
                cols == old(self).column_count,
                row < self.row_count,
                wf_rat(*r),
                r@.n != 0,
                c <= cols,
                forall|r: int, cc: int|
                    0 <= r < self.row_count && 0 <= cc < cols && (r != row || cc >= c) ==> #[trigger] self.entry(r, cc)
                        == old(self).entry(r, cc),
                forall|cc: int| 0 <= cc < c ==> q_eq(#[trigger] self.entry(row as int, cc), q_div(old(self).entry(row as int, cc), r@)),
            decreases cols - c,
        {
            proof {
                lemma_mat_index(self.row_count as int, cols as int, row as int, c as int);
            }
            let x = rat_div(self.get(row, c), r);
            self.set(row, c, x);
            c = c + 1;
        }
    }
}


impl BigMatrix {
    /// `self + other` entrywise, over the shape of `self`; entry `row`, `col` of `other` is its
    /// number at `col + other.column_count * row`.
    pub fn add(&self, other: &BigMatrix) -> (m: BigMatrix)
        requires
            self.wf(),
            other.wf(),
            covers(other.column_count as int, other.numbers.len() as int, self.row_count as int, self.column_count as int),
        ensures
            m.wf(),
            m.row_count == self.row_count,
            m.column_count == self.column_count,
            forall|r: int, c: int|
                0 <= r < self.row_count && 0 <= c < self.column_count ==> q_eq(#[trigger] m.entry(r, c), q_add(self.entry(r, c), other.entry(r, c))),
    {
        let generator = |row: usize, col: usize| -> (x: BigRational)
            requires
                row < self.row_count,
                col < self.column_count,
            ensures
                wf_rat(x),
                q_eq(x@, q_add(self.entry(row as int, col as int), other.entry(row as int, col as int))),
            {
                proof {
                    lemma_mat_index(self.row_count as int, self.column_count as int, row as int, col as int);
                    assert((col as int) + other.column_count * (row as int) < other.numbers.len());
                }
                rat_add(self.get(row, col), other.get(row, col))
            };
        proof {
            lemma_mat_index_total(self.row_count as int, self.column_count as int);
        }
        let m = BigMatrix::new_provided(self.row_count, self.column_count, generator);
        proof {
            assert forall|r: int, c: int|
                0 <= r < self.row_count && 0 <= c < self.column_count implies q_eq(#[trigger] m.entry(r, c), q_add(self.entry(r, c), other.entry(r, c))) by {
                assert(call_ensures(generator, (r as usize, c as usize), m.numbers@[c + self.column_count * r]));
            }
        }
        m
    }

    /// `self - other` entrywise, over the shape of `self`; entry `row`, `col` of `other` is its
    /// number at `col + other.column_count * row`.
    pub fn sub(&self, other: &BigMatrix) -> (m: BigMatrix)
        requires
            self.wf(),
            other.wf(),
            covers(other.column_count as int, other.numbers.len() as int, self.row_count as int, self.column_count as int),
        ensures
            m.wf(),
            m.row_count == self.row_count,
            m.column_count == self.column_count,
            forall|r: int, c: int|
                0 <= r < self.row_count && 0 <= c < self.column_count ==> q_eq(#[trigger] m.entry(r, c), q_sub(self.entry(r, c), other.entry(r, c))),
    {
        let generator = |row: usize, col: usize| -> (x: BigRational)
            requires
                row < self.row_count,
                col < self.column_count,
            ensures
                wf_rat(x),
                q_eq(x@, q_sub(self.entry(row as int, col as int), other.entry(row as int, col as int))),
            {
                proof {
                    lemma_mat_index(self.row_count as int, self.column_count as int, row as int, col as int);
                    assert((col as int) + other.column_count * (row as int) < other.numbers.len());
                }
                rat_sub(self.get(row, col), other.get(row, col))
            };
        proof {
            lemma_mat_index_total(self.row_count as int, self.column_count as int);
        }
        let m = BigMatrix::new_provided(self.row_count, self.column_count, generator);
        proof {
            assert forall|r: int, c: int|
                0 <= r < self.row_count && 0 <= c < self.column_count implies q_eq(#[trigger] m.entry(r, c), q_sub(self.entry(r, c), other.entry(r, c))) by {
                assert(call_ensures(generator, (r as usize, c as usize), m.numbers@[c + self.column_count * r]));
            }
        }
        m
    }

    /// The product `self * m`, over the shape of `self`: entry `row`, `col` is the dot product
    /// of row `row` of `self` with column `col` of `m`.
    pub fn mul_matrix(&self, m: &BigMatrix) -> (p: BigMatrix)
        requires
            self.wf(),
            m.wf(),
            self.column_count <= m.row_count,
            self.column_count <= m.column_count,
        ensures
            p.wf(),
            p.row_count == self.row_count,
            p.column_count == self.column_count,
            forall|r: int, c: int|
                0 <= r < self.row_count && 0 <= c < self.column_count ==> q_eq(
                    #[trigger] p.entry(r, c),
                    q_dot(self.row_values(r), m.column_values(c), self.column_count as nat),
                ),
    {
        let generator = |row: usize, col: usize| -> (x: BigRational)
            requires
                row < self.row_count,
                col < self.column_count,
            ensures
                wf_rat(x),
                q_eq(x@, q_dot(self.row_values(row as int), m.column_values(col as int), self.column_count as nat)),
            { self.get_row(row).dot(&m.get_column(col)) };
        proof {
            lemma_mat_index_total(self.row_count as int, self.column_count as int);
        }
        let p = BigMatrix::new_provided(self.row_count, self.column_count, generator);
        proof {
            assert forall|r: int, c: int|
                0 <= r < self.row_count && 0 <= c < self.column_count implies q_eq(
                    #[trigger] p.entry(r, c),
                    q_dot(self.row_values(r), m.column_values(c), self.column_count as nat),
                ) by {
                assert(call_ensures(generator, (r as usize, c as usize), p.numbers@[c + self.column_count * r]));
            }
        }
        p
    }

    /// The product `self * v`: entry `i` is the dot product of `v` with row `i`.
    pub fn mul_vector(&self, v: &OwnedBigVector) -> (p: OwnedBigVector)
        requires
            self.wf(),
            v.wf_vec(),
            v.dimension <= self.column_count,
        ensures
            p.wf_vec(),
            p.dimension == self.row_count,
            forall|i: int| 0 <= i < self.row_count ==> q_eq(
                #[trigger] p.values()[i],
                q_dot(v.values(), self.row_values(i), v.dimension as nat),
            ),
    {
        let mut numbers: Vec<BigRational> = Vec::with_capacity(self.row_count);
        let mut i: usize = 0;
        while i < self.row_count
            invariant
                self.wf(),
                v.wf_vec(),
                v.dimension <= self.column_count,
                i <= self.row_count,
                numbers.len() == i,
                all_wf(numbers@),
                forall|j: int| 0 <= j < i ==> q_eq(
                    (#[trigger] numbers@[j])@,
                    q_dot(v.values(), self.row_values(j), v.dimension as nat),
                ),
            decreases self.row_count - i,
        {
            numbers.push(v.dot(&self.get_row(i)));
            i = i + 1;
        }
        OwnedBigVector::new_from_numbers(numbers)
    }

    /// Whether both matrices have the same shape and equal entries.
    pub fn equals(&self, other: &BigMatrix) -> (b: bool)
        requires
            self.wf(),
            other.wf(),
        ensures
            b == (self.row_count == other.row_count && self.column_count == other.column_count
                && forall|r: int, c: int|
                0 <= r < self.row_count && 0 <= c < self.column_count ==> q_eq(#[trigger] self.entry(r, c), other.entry(r, c))),
    {
        if self.row_count != other.row_count || self.column_count != other.column_count {
            return false;
        }
        let mut row: usize = 0;
        while row < self.row_count
            invariant
                self.wf(),
                other.wf(),
                self.row_count == other.row_count,
                self.column_count == other.column_count,
                row <= self.row_count,
                forall|r: int, c: int|
                    0 <= r < row && 0 <= c < self.column_count ==> q_eq(#[trigger] self.entry(r, c), other.entry(r, c)),
            decreases self.row_count - row,
        {
            let mut col: usize = 0;
            while col < self.column_count
                invariant
                    self.wf(),
                    other.wf(),
                    self.row_count == other.row_count,
                    self.column_count == other.column_count,
                    row < self.row_count,
                    col <= self.column_count,
                    forall|r: int, c: int|
                        (0 <= r < row && 0 <= c < self.column_count) || (r == row && 0 <= c < col) ==> q_eq(#[trigger] self.entry(r, c), other.entry(r, c)),
                decreases self.column_count - col,
            {
                proof {
                    lemma_mat_index(self.row_count as int, self.column_count as int, row as int, col as int);
                }
                if !rat_eq(self.get(row, col), other.get(row, col)) {
                    return false;
                }
                col = col + 1;
            }
            row = row + 1;
        }
        true
    }

    /// A copy of this matrix.
    pub fn copy(&self) -> (m: BigMatrix)
        requires
            self.wf(),
        ensures
            m.wf(),
            m.row_count == self.row_count,
            m.column_count == self.column_count,
            m.values() == self.values(),
    {
        let mut numbers: Vec<BigRational> = Vec::with_capacity(self.numbers.len());
        let mut i: usize = 0;
        while i < self.numbers.len()
            invariant
                self.wf(),
                i <= self.numbers.len(),
                numbers.len() == i,
                all_wf(numbers@),
                forall|j: int| 0 <= j < i ==> (#[trigger] numbers@[j])@ == self.values()[j],
            decreases self.numbers.len() - i,
        {
            numbers.push(self.numbers[i].clone());
            i = i + 1;
        }
        let m = BigMatrix { numbers, row_count: self.row_count, column_count: self.column_count };
        proof {
            assert(m.values() =~= self.values());
        }
        m
    }
}

/// The number of entries of a well-formed matrix fits in a `usize`.
pub proof fn lemma_mat_index_total(rows: int, cols: int)
    requires
        0 <= rows,
        0 <= cols,
    ensures
        rows * cols == cols * rows,
        0 <= rows * cols,
{
    vstd::arithmetic::mul::lemma_mul_is_commutative(rows, cols);
    vstd::arithmetic::mul::lemma_mul_nonnegative(rows, cols);
}


/// The value that the transposed copy holds at flat position `k` after `n` rows were written.
pub open spec fn transposed_value(m: &BigMatrix, n: nat, k: int) -> Q {
    match last_writer(m.column_count as int, m.row_count as int, n, k) {
        Some(w) => m.entry(k - m.column_count * w, w),
        None => q_int(0),
    }
}

proof fn lemma_last_writer_square(n: int, r: int, c: int, m: nat)
    requires
        0 <= r < m <= n,
        0 <= c < n,
    ensures
        last_writer(n, n, m, c + n * r) == Some(r),
    decreases m,
{
    if m - 1 != r {
        assert(n * (m - 1) >= n * (r + 1)) by (nonlinear_arith)
            requires
                m - 1 >= r + 1,
                n >= 0,
        ;
        assert(n * (r + 1) == n * r + n) by (nonlinear_arith);
        lemma_last_writer_square(n, r, c, (m - 1) as nat);
    }
}

impl BigMatrix {
    /// Keeps the `row_count` by `column_count` block that starts at `start_row`, `start_column`:
    /// entry `r`, `c` of the result is the number at position
    /// `start_row * column_count + start_column + column_count * r + c` of the old matrix.
    pub fn shink(&mut self, start_row: usize, start_column: usize, row_count: usize, column_count: usize)
        requires
            old(self).wf(),
            row_count * column_count <= usize::MAX,
            !(start_row == 0 && start_column == 0 && old(self).row_count == row_count && old(self).column_count == column_count) ==> {
                &&& column_count <= old(self).column_count
                &&& start_row * old(self).column_count + start_column <= usize::MAX
                &&& forall|r: int, c: int| 0 <= r < row_count && 0 <= c < column_count ==>
                    #[trigger] (start_row * old(self).column_count + start_column + old(self).column_count * r + c) < old(self).numbers.len()
            },
        ensures
            final(self).wf(),
            final(self).row_count == row_count,
            final(self).column_count == column_count,
            forall|r: int, c: int| 0 <= r < row_count && 0 <= c < column_count ==>
                #[trigger] final(self).values()[c + column_count * r] == old(self).values()[start_row * old(self).column_count + start_column + old(self).column_count * r + c],
    {
        if start_row == 0 && start_column == 0 && self.row_count == row_count && self.column_count == column_count {
            proof {
                assert forall|r: int, c: int| 0 <= r < row_count && 0 <= c < column_count implies
                    #[trigger] self.values()[c + column_count * r] == old(self).values()[start_row * old(self).column_count + start_column + old(self).column_count * r + c] by {
                    vstd::arithmetic::mul::lemma_mul_by_zero_is_zero(old(self).column_count as int);
                    assert(start_row * old(self).column_count == 0);
                }
            }
            return;
        }
        let cols = self.column_count;
        let start = start_row * cols + start_column;
        let mut numbers: Vec<BigRational> = Vec::with_capacity(row_count * column_count);
        let mut r: usize = 0;
        while r < row_count
            invariant
                self.wf(),
                self.column_count == cols,
                self.numbers@ == old(self).numbers@,
                cols == old(self).column_count,
                column_count <= cols,
                start == start_row * cols + start_column,
                forall|r: int, c: int| 0 <= r < row_count && 0 <= c < column_count ==>
                    #[trigger] (start + cols * r + c) < self.numbers.len(),
                r <= row_count,
                numbers.len() == column_count * r,
                all_wf(numbers@),
                forall|rr: int, c: int| 0 <= rr < r && 0 <= c < column_count ==>
                    #[trigger] numbers@[c + column_count * rr]@ == self.values()[start + cols * rr + c],
            decreases row_count - r,
        {
            let mut c: usize = 0;
            while c < column_count
                invariant
                    self.wf(),
                    self.column_count == cols,
                    self.numbers@ == old(self).numbers@,
                    column_count <= cols,
                    forall|r: int, c: int| 0 <= r < row_count && 0 <= c < column_count ==>
                        #[trigger] (start + cols * r + c) < self.numbers.len(),
                    r < row_count,
                    c <= column_count,
                    numbers.len() == column_count * r + c,
                    all_wf(numbers@),
                    forall|rr: int, cc: int| (0 <= rr < r && 0 <= cc < column_count) || (rr == r && 0 <= cc < c) ==>
                        #[trigger] numbers@[cc + column_count * rr]@ == self.values()[start + cols * rr + cc],
                decreases column_count - c,
            {
                proof {
                    assert(start + cols * r + c < self.numbers.len());
                    lemma_flat_index(cols as int, r as int, c as int);
                }
                let x = self.numbers[start + cols * r + c].clone();
                let ghost before = numbers@;
                numbers.push(x);
                proof {
                    assert forall|rr: int, cc: int| (0 <= rr < r && 0 <= cc < column_count) || (rr == r && 0 <= cc < c + 1) implies
                        #[trigger] numbers@[cc + column_count * rr]@ == self.values()[start + cols * rr + cc] by {
                        if rr < r {
                            lemma_mat_index(r as int, column_count as int, rr, cc);
                        }
                    }
                }
                c = c + 1;
            }
            proof {
                assert(column_count * r + column_count == column_count * (r + 1)) by (nonlinear_arith);
            }
            r = r + 1;
        }
        proof {
            lemma_mat_index_total(row_count as int, column_count as int);
        }
        let ghost old_vals = self.values();
        let ghost nv = numbers@;
        self.numbers = numbers;
        self.row_count = row_count;
        self.column_count = column_count;
        proof {
            assert forall|r: int, c: int| 0 <= r < row_count && 0 <= c < column_count implies
                #[trigger] self.values()[c + column_count * r] == old(self).values()[start_row * old(self).column_count + start_column + old(self).column_count * r + c] by {
                assert(old_vals == old(self).values());
                lemma_mat_index(row_count as int, column_count as int, r, c);
                assert(nv[c + column_count * r]@ == old_vals[start + cols * r + c]);
                assert(self.values()[c + column_count * r] == old_vals[start + cols * r + c]);
            }
        }
    }

    /// The transposed copy: starting from a zero matrix of the
    /// same shape, row `i` of the result receives column `i`, for each column in turn. For a
    /// square matrix this is the transpose.
    pub fn transpose(&self) -> (t: BigMatrix)
        requires
            self.wf(),
            forall|i: int| 0 <= i < self.column_count ==> self.row_count == 0 || (self.row_count - 1) + #[trigger] (self.column_count * i) < self.numbers.len(),
        ensures
            t.wf(),
            t.row_count == self.row_count,
            t.column_count == self.column_count,
            forall|k: int| 0 <= k < t.values().len() ==> #[trigger] t.values()[k] == transposed_value(self, self.column_count as nat, k),
            self.row_count == self.column_count ==> forall|r: int, c: int|
                0 <= r < self.row_count && 0 <= c < self.column_count ==> #[trigger] t.entry(r, c) == self.entry(c, r),
    {
        let mut dest = BigMatrix::new(self.row_count, self.column_count);
        let mut i: usize = 0;
        while i < self.column_count
            invariant
                self.wf(),
                forall|i: int| 0 <= i < self.column_count ==> self.row_count == 0 || (self.row_count - 1) + #[trigger] (self.column_count * i) < self.numbers.len(),
                dest.wf(),
                dest.row_count == self.row_count,
                dest.column_count == self.column_count,
                i <= self.column_count,
                forall|k: int| 0 <= k < dest.values().len() ==> #[trigger] dest.values()[k] == transposed_value(self, i as nat, k),
            decreases self.column_count - i,
        {
            let column = self.get_column(i).to_owned();
            let ghost cv = column.values();
            let ghost dv = dest.values();
            proof {
                assert(self.row_count == 0 || (self.row_count - 1) + #[trigger] (self.column_count * (i as int)) < self.numbers.len());
                assert(column.values().len() == self.row_count);
                assert(column.dimension == self.row_count);
                assert(dest.numbers.len() == self.numbers.len());
            }
            dest.set_row(i, column);
            proof {
                let cols = self.column_count as int;
                let rows = self.row_count as int;
                assert forall|k: int| 0 <= k < dest.values().len() implies #[trigger] dest.values()[k] == transposed_value(self, (i + 1) as nat, k) by {
                    assert(dest.values()[k] == if cols * i <= k < cols * i + rows {
                        cv[k - cols * i]
                    } else {
                        dv[k]
                    });
                    if cols * i <= k < cols * i + rows {
                        assert(last_writer(cols, rows, (i + 1) as nat, k) == Some(i as int));
                        assert(cv[k - cols * i] == self.entry(k - cols * i, i as int));
                    } else {
                        assert(last_writer(cols, rows, (i + 1) as nat, k) == last_writer(cols, rows, i as nat, k));
                    }
                }
            }
            i = i + 1;
        }
        proof {
            if self.row_count == self.column_count {
                assert forall|r: int, c: int|
                    0 <= r < self.row_count && 0 <= c < self.column_count implies #[trigger] dest.entry(r, c) == self.entry(c, r) by {
                    lemma_mat_index(self.row_count as int, self.column_count as int, r, c);
                    lemma_last_writer_square(self.column_count as int, r, c, self.column_count as nat);
                    assert(dest.values()[c + self.column_count * r] == transposed_value(self, self.column_count as nat, c + self.column_count * r));
                }
            }
        }
        dest
    }
}

} // verus!
