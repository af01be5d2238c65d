//! Integer combinations of the rows of a matrix: the points of the lattice they span.
use crate::math::component::big_matrix::{lemma_entry_wf, BigMatrix};
use crate::math::component::rational::{
    lemma_q_add_cong, lemma_q_eq_trans, lemma_q_mul_cong, lemma_q_ops_wf, lemma_q_sub_cong, q_add,
    q_div, q_dot, q_eq, q_int, q_mul, q_sub, q_wf, Q,
};
use crate::math::lattice::decomposition::{delta, invertible_diagonal};
use vstd::arithmetic::div_mod::{lemma_fundamental_div_mod, lemma_mod_multiples_basic};
use vstd::prelude::*;

verus! {

/// The integers `w` as rationals.
pub open spec fn int_q_seq(w: Seq<int>) -> Seq<Q> {
    Seq::new(w.len(), |t: int| q_int(w[t]))
}

/// Entry `c` of `w[0]` times row 0 of `base`, plus ..., plus `w[n - 1]` times row `n - 1`.
pub open spec fn combination(w: Seq<int>, base: BigMatrix, c: int) -> Q {
    q_dot(int_q_seq(w), base.column_values(c), base.row_count as nat)
}

/// Row `r` of `m` is the combination of the rows of `base` with the integer weights `w`.
pub open spec fn row_combines(m: BigMatrix, r: int, base: BigMatrix, w: Seq<int>) -> bool {
    &&& w.len() == base.row_count
    &&& forall|c: int| 0 <= c < m.column_count ==> q_eq(#[trigger] m.entry(r, c), combination(w, base, c))
}

/// Row `r` of `m` is a point of the lattice spanned by the rows of `base`.
pub open spec fn in_lattice(m: BigMatrix, r: int, base: BigMatrix) -> bool {
    exists|w: Seq<int>| #[trigger] row_combines(m, r, base, w)
}

/// The product of the denominators of the first `n` entries of column `c`.
pub open spec fn denominators(base: BigMatrix, c: int, n: nat) -> int
    decreases n,
{
    if n == 0 {
        1
    } else {
        denominators(base, c, (n - 1) as nat) * base.entry(n - 1, c).d
    }
}

/// The numerator of entry `t` of column `c` over the product of the column's denominators.
pub open spec fn scaled_entry(base: BigMatrix, c: int, t: int) -> int {
    base.entry(t, c).n * (denominators(base, c, base.row_count as nat) / base.entry(t, c).d)
}

/// `w[0] * scaled_entry(0) + ... + w[n - 1] * scaled_entry(n - 1)`.
pub open spec fn scaled_sum(w: Seq<int>, base: BigMatrix, c: int, n: nat) -> int
    decreases n,
{
    if n == 0 {
        0
    } else {
        scaled_sum(w, base, c, (n - 1) as nat) + w[n - 1] * scaled_entry(base, c, n - 1)
    }
}

/// The combination with weights `w` as one fraction over the product of the column's
/// denominators.
pub open spec fn scaled_combination(w: Seq<int>, base: BigMatrix, c: int) -> Q {
    Q { n: scaled_sum(w, base, c, base.row_count as nat), d: denominators(base, c, base.row_count as nat) }
}

/// The weights `wi - k * wj`.
pub open spec fn weights_sub(wi: Seq<int>, wj: Seq<int>, k: int) -> Seq<int> {
    Seq::new(wi.len(), |t: int| wi[t] - k * wj[t])
}

/// The weights of row `r` alone among `n` rows.
pub open spec fn unit_weights(n: nat, r: int) -> Seq<int> {
    Seq::new(n, |t: int| if t == r { 1int } else { 0int })
}

/// The product of the denominators of a column is positive and a multiple of each of them.
pub proof fn lemma_denominators(base: BigMatrix, c: int, n: nat)
    requires
        base.wf(),
        0 <= c < base.column_count,
        n <= base.row_count,
    ensures
        denominators(base, c, n) > 0,
        forall|t: int| 0 <= t < n ==> denominators(base, c, n) % (#[trigger] base.entry(t, c)).d == 0,
    decreases n,
{
    if n > 0 {
        let n1 = (n - 1) as nat;
        lemma_denominators(base, c, n1);
        let p = denominators(base, c, n1);
        let d = base.entry(n1 as int, c).d;
        lemma_entry_wf(&base, n1 as int, c);
        assert(p * d > 0) by (nonlinear_arith)
            requires
                p > 0,
                d > 0,
        ;
        assert forall|t: int| 0 <= t < n implies denominators(base, c, n) % (#[trigger] base.entry(t, c)).d == 0 by {
            if t == n1 {
                lemma_mod_multiples_basic(p, d);
                assert(p * d == d * p) by (nonlinear_arith);
            } else {
                let dt = base.entry(t, c).d;
                lemma_entry_wf(&base, t, c);
                lemma_fundamental_div_mod(p, dt);
                let q = p / dt;
                assert(p * d == (q * d) * dt) by (nonlinear_arith)
                    requires
                        p == dt * q + 0,
                ;
                lemma_mod_multiples_basic(q * d, dt);
            }
        }
    }
}

/// An entry of a column is its scaled numerator over the product of the column's
/// denominators.
pub proof fn lemma_entry_scaled(base: BigMatrix, c: int, t: int)
    requires
        base.wf(),
        0 <= c < base.column_count,
        0 <= t < base.row_count,
    ensures
        q_eq(base.entry(t, c), Q { n: scaled_entry(base, c, t), d: denominators(base, c, base.row_count as nat) }),
{
    let e = base.entry(t, c);
    let big = denominators(base, c, base.row_count as nat);
    lemma_denominators(base, c, base.row_count as nat);
    lemma_entry_wf(&base, t, c);
    assert(big % e.d == 0);
    lemma_fundamental_div_mod(big, e.d);
    let q = big / e.d;
    assert(e.n * big == (e.n * q) * e.d) by (nonlinear_arith)
        requires
            big == e.d * q + 0,
    ;
}

/// Over a common denominator, the combination of the first `n` rows is the scaled sum.
proof fn lemma_prefix_scaled(w: Seq<int>, base: BigMatrix, c: int, n: nat)
    requires
        base.wf(),
        0 <= c < base.column_count,
        n <= base.row_count,
        w.len() == base.row_count,
    ensures
        q_eq(
            q_dot(int_q_seq(w), base.column_values(c), n),
            Q { n: scaled_sum(w, base, c, n), d: denominators(base, c, base.row_count as nat) },
        ),
        q_wf(q_dot(int_q_seq(w), base.column_values(c), n)),
    decreases n,
{
    let big = denominators(base, c, base.row_count as nat);
    lemma_denominators(base, c, base.row_count as nat);
    if n == 0 {
    } else {
        let n1 = (n - 1) as nat;
        lemma_prefix_scaled(w, base, c, n1);
        let prev = q_dot(int_q_seq(w), base.column_values(c), n1);
        let s = scaled_sum(w, base, c, n1);
        let e = base.entry(n1 as int, c);
        let wt = w[n1 as int];
        let se = scaled_entry(base, c, n1 as int);
        assert(int_q_seq(w)[n1 as int] == q_int(wt));
        assert(base.column_values(c)[n1 as int] == e);
        lemma_entry_wf(&base, n1 as int, c);
        lemma_entry_scaled(base, c, n1 as int);
        let scaled_e = Q { n: se, d: big };
        lemma_q_mul_cong(q_int(wt), q_int(wt), e, scaled_e);
        let term = q_mul(q_int(wt), e);
        let scaled_term = q_mul(q_int(wt), scaled_e);
        lemma_q_add_cong(prev, Q { n: s, d: big }, term, scaled_term);
        let sum_scaled = q_add(Q { n: s, d: big }, scaled_term);
        assert(q_eq(sum_scaled, Q { n: s + wt * se, d: big })) by (nonlinear_arith)
            requires
                sum_scaled == q_add(Q { n: s, d: big }, q_mul(q_int(wt), Q { n: se, d: big })),
        ;
        lemma_q_ops_wf(q_int(wt), e);
        lemma_q_ops_wf(prev, term);
        assert(big * (1 * big) > 0) by (nonlinear_arith)
            requires
                big > 0,
        ;
        lemma_q_eq_trans(q_add(prev, term), sum_scaled, Q { n: s + wt * se, d: big });
    }
}

/// The combination with weights `w` is the scaled combination.
pub proof fn lemma_combination_scaled(w: Seq<int>, base: BigMatrix, c: int)
    requires
        base.wf(),
        0 <= c < base.column_count,
        w.len() == base.row_count,
    ensures
        q_eq(combination(w, base, c), scaled_combination(w, base, c)),
        q_eq(scaled_combination(w, base, c), combination(w, base, c)),
        q_wf(combination(w, base, c)),
        q_wf(scaled_combination(w, base, c)),
{
    lemma_prefix_scaled(w, base, c, base.row_count as nat);
    lemma_denominators(base, c, base.row_count as nat);
}

/// The scaled sum is linear in the weights.
pub proof fn lemma_scaled_sum_sub(wi: Seq<int>, wj: Seq<int>, k: int, base: BigMatrix, c: int, n: nat)
    requires
        n <= wi.len(),
        wi.len() == wj.len(),
    ensures
        scaled_sum(weights_sub(wi, wj, k), base, c, n) == scaled_sum(wi, base, c, n) - k * scaled_sum(wj, base, c, n),
    decreases n,
{
    if n > 0 {
        let n1 = (n - 1) as nat;
        lemma_scaled_sum_sub(wi, wj, k, base, c, n1);
        let se = scaled_entry(base, c, n1 as int);
        let a = wi[n1 as int];
        let b = wj[n1 as int];
        let si = scaled_sum(wi, base, c, n1);
        let sj = scaled_sum(wj, base, c, n1);
        assert((a - k * b) * se == a * se - k * (b * se)) by (nonlinear_arith);
        assert(k * (sj + b * se) == k * sj + k * (b * se)) by (nonlinear_arith);
    }
}

/// The scaled sum of the weights of one row is that row's scaled entry.
pub proof fn lemma_scaled_sum_unit(base: BigMatrix, c: int, r: int, n: nat)
    requires
        0 <= r < base.row_count,
        n <= base.row_count,
    ensures
        scaled_sum(unit_weights(base.row_count as nat, r), base, c, n) == if r < n {
            scaled_entry(base, c, r)
        } else {
            0
        },
    decreases n,
{
    if n > 0 {
        lemma_scaled_sum_unit(base, c, r, (n - 1) as nat);
    }
}

/// Row `i` less `k` times row `j`, of two rows that combine the rows of `base` with
/// weights `wi` and `wj`, combines them with weights `wi - k * wj`.
pub proof fn lemma_combines_sub(x: Q, ei: Q, ej: Q, wi: Seq<int>, wj: Seq<int>, k: int, base: BigMatrix, c: int)
    requires
        base.wf(),
        0 <= c < base.column_count,
        wi.len() == base.row_count,
        wj.len() == base.row_count,
        q_wf(ei),
        q_wf(ej),
        q_eq(x, q_sub(ei, q_mul(ej, q_int(k)))),
        q_eq(ei, scaled_combination(wi, base, c)),
        q_eq(ej, scaled_combination(wj, base, c)),
    ensures
        q_eq(x, scaled_combination(weights_sub(wi, wj, k), base, c)),
{
    let big = denominators(base, c, base.row_count as nat);
    lemma_denominators(base, c, base.row_count as nat);
    let si = scaled_sum(wi, base, c, base.row_count as nat);
    let sj = scaled_sum(wj, base, c, base.row_count as nat);
    let qi = Q { n: si, d: big };
    let qj = Q { n: sj, d: big };
    lemma_q_mul_cong(ej, qj, q_int(k), q_int(k));
    lemma_q_sub_cong(ei, qi, q_mul(ej, q_int(k)), q_mul(qj, q_int(k)));
    let mid = q_sub(qi, q_mul(qj, q_int(k)));
    assert(q_eq(mid, Q { n: si - k * sj, d: big })) by (nonlinear_arith)
        requires
            mid == q_sub(Q { n: si, d: big }, q_mul(Q { n: sj, d: big }, q_int(k))),
    ;
    lemma_q_ops_wf(ej, q_int(k));
    lemma_q_ops_wf(ei, q_mul(ej, q_int(k)));
    lemma_q_eq_trans(x, q_sub(ei, q_mul(ej, q_int(k))), mid);
    assert(big * (big * 1) > 0) by (nonlinear_arith)
        requires
            big > 0,
    ;
    lemma_q_eq_trans(x, mid, Q { n: si - k * sj, d: big });
    lemma_scaled_sum_sub(wi, wj, k, base, c, base.row_count as nat);
}

/// Each row `r` of `m` is the combination of the rows of `base` with the weights `w[r]`, over
/// the common denominators of the columns.
pub open spec fn rows_combine(m: BigMatrix, base: BigMatrix, w: Seq<Seq<int>>) -> bool {
    &&& w.len() == m.row_count
    &&& forall|r: int| 0 <= r < m.row_count ==> (#[trigger] w[r]).len() == base.row_count
    &&& forall|r: int, c: int|
        0 <= r < m.row_count && 0 <= c < m.column_count ==> q_eq(#[trigger] m.entry(r, c), scaled_combination(w[r], base, c))
}

/// The weights of each row alone.
pub open spec fn identity_weights(n: nat) -> Seq<Seq<int>> {
    Seq::new(n, |r: int| unit_weights(n, r))
}

/// Each row of a matrix combines its rows with the weights of itself alone.
pub proof fn lemma_rows_combine_identity(base: BigMatrix)
    requires
        base.wf(),
    ensures
        rows_combine(base, base, identity_weights(base.row_count as nat)),
{
    let n = base.row_count as nat;
    let w = identity_weights(n);
    assert forall|r: int, c: int| 0 <= r < base.row_count && 0 <= c < base.column_count implies q_eq(
        #[trigger] base.entry(r, c),
        scaled_combination(w[r], base, c),
    ) by {
        lemma_entry_scaled(base, c, r);
        lemma_scaled_sum_unit(base, c, r, n);
    }
}

/// Subtracting `k` times row `j` from row `i` subtracts `k` times the weights of row `j`
/// from those of row `i`.
pub proof fn lemma_rows_combine_sub(m0: BigMatrix, m1: BigMatrix, base: BigMatrix, w: Seq<Seq<int>>, i: int, j: int, k: int)
    requires
        base.wf(),
        m0.wf(),
        m0.column_count == base.column_count,
        rows_combine(m0, base, w),
        m1.row_count == m0.row_count,
        m1.column_count == m0.column_count,
        0 <= i < m0.row_count,
        0 <= j < m0.row_count,
        i != j,
        forall|a: int, c: int|
            0 <= a < m0.row_count && 0 <= c < m0.column_count && a != i ==> #[trigger] m1.entry(a, c) == m0.entry(a, c),
        forall|c: int|
            0 <= c < m0.column_count ==> q_eq(#[trigger] m1.entry(i, c), q_sub(m0.entry(i, c), q_mul(m0.entry(j, c), q_int(k)))),
    ensures
        rows_combine(m1, base, w.update(i, weights_sub(w[i], w[j], k))),
{
    let w1 = w.update(i, weights_sub(w[i], w[j], k));
    assert forall|r: int, c: int| 0 <= r < m1.row_count && 0 <= c < m1.column_count implies q_eq(
        #[trigger] m1.entry(r, c),
        scaled_combination(w1[r], base, c),
    ) by {
        if r == i {
            lemma_entry_wf(&m0, i, c);
            lemma_entry_wf(&m0, j, c);
            assert(q_eq(m0.entry(i, c), scaled_combination(w[i], base, c)));
            assert(q_eq(m0.entry(j, c), scaled_combination(w[j], base, c)));
            lemma_combines_sub(m1.entry(i, c), m0.entry(i, c), m0.entry(j, c), w[i], w[j], k, base, c);
        } else {
            assert(m1.entry(r, c) == m0.entry(r, c));
        }
    }
}

/// Exchanging rows `a` and `b` exchanges their weights.
pub proof fn lemma_rows_combine_swap(m0: BigMatrix, m1: BigMatrix, base: BigMatrix, w: Seq<Seq<int>>, a: int, b: int)
    requires
        rows_combine(m0, base, w),
        m1.row_count == m0.row_count,
        m1.column_count == m0.column_count,
        0 <= a < m0.row_count,
        0 <= b < m0.row_count,
        forall|r: int, c: int|
            0 <= r < m0.row_count && 0 <= c < m0.column_count ==> #[trigger] m1.entry(r, c) == m0.entry(
                if r == a {
                    b
                } else if r == b {
                    a
                } else {
                    r
                },
                c,
            ),
    ensures
        rows_combine(m1, base, w.update(a, w[b]).update(b, w[a])),
{
    let w1 = w.update(a, w[b]).update(b, w[a]);
    assert forall|r: int, c: int| 0 <= r < m1.row_count && 0 <= c < m1.column_count implies q_eq(
        #[trigger] m1.entry(r, c),
        scaled_combination(w1[r], base, c),
    ) by {
        let src = if r == a {
            b
        } else if r == b {
            a
        } else {
            r
        };
        assert(m1.entry(r, c) == m0.entry(src, c));
        assert(w1[r] == w[src]);
    }
}

/// The rows of `out`, which are rows `p ..` of `m`, are points of the lattice of `base`.
pub proof fn lemma_rows_in_lattice(m: BigMatrix, base: BigMatrix, w: Seq<Seq<int>>, out: BigMatrix, p: int)
    requires
        base.wf(),
        m.column_count == base.column_count,
        rows_combine(m, base, w),
        0 <= p,
        out.row_count + p <= m.row_count,
        out.column_count == m.column_count,
        forall|r: int, c: int| 0 <= r < out.row_count && 0 <= c < out.column_count ==> #[trigger] out.entry(r, c) == m.entry(r + p, c),
    ensures
        forall|r: int| 0 <= r < out.row_count ==> in_lattice(out, r, base),
{
    assert forall|r: int| 0 <= r < out.row_count implies in_lattice(out, r, base) by {
        let wr = w[r + p];
        assert forall|c: int| 0 <= c < out.column_count implies q_eq(#[trigger] out.entry(r, c), combination(wr, base, c)) by {
            assert(out.entry(r, c) == m.entry(r + p, c));
            assert(q_eq(m.entry(r + p, c), scaled_combination(wr, base, c)));
            lemma_combination_scaled(wr, base, c);
            lemma_q_eq_trans(out.entry(r, c), scaled_combination(wr, base, c), combination(wr, base, c));
        }
        assert(row_combines(out, r, base, wr));
    }
}

/// A sum of products whose second factors are zero but at `c` is the product at `c` (and has a
/// zero numerator where `c` is beyond the sum).
pub proof fn lemma_dot_one_term(a: Seq<Q>, b: Seq<Q>, n: nat, c: int)
    requires
        n <= a.len(),
        n <= b.len(),
        0 <= c,
        forall|k: int| 0 <= k < a.len() ==> q_wf(#[trigger] a[k]),
        forall|k: int| 0 <= k < b.len() ==> q_wf(#[trigger] b[k]),
        forall|k: int| 0 <= k < n && k != c ==> (#[trigger] b[k]).n == 0,
    ensures
        c < n ==> q_eq(q_dot(a, b, n), q_mul(a[c], b[c])),
        c >= n ==> q_dot(a, b, n).n == 0,
        q_wf(q_dot(a, b, n)),
    decreases n,
{
    if n > 0 {
        let n1 = (n - 1) as nat;
        lemma_dot_one_term(a, b, n1, c);
        let prev = q_dot(a, b, n1);
        let t = q_mul(a[n1 as int], b[n1 as int]);
        lemma_q_ops_wf(a[n1 as int], b[n1 as int]);
        lemma_q_ops_wf(prev, t);
        if n1 == c {
            assert(q_eq(q_add(prev, t), t)) by (nonlinear_arith)
                requires
                    prev.n == 0,
            ;
        } else {
            assert(t.n == 0) by (nonlinear_arith)
                requires
                    b[n1 as int].n == 0,
                    t.n == a[n1 as int].n * b[n1 as int].n,
            ;
            assert(q_eq(q_add(prev, t), prev)) by (nonlinear_arith)
                requires
                    t.n == 0,
            ;
            if c < n1 {
                lemma_q_eq_trans(q_add(prev, t), prev, q_mul(a[c], b[c]));
            } else {
                assert(q_add(prev, t).n == 0) by (nonlinear_arith)
                    requires
                        prev.n == 0,
                        t.n == 0,
                ;
            }
        }
    }
}

/// `a * s + w * (b * s)` is `(a + w * b) * s`.
proof fn lemma_factor_right(a: Q, w: Q, b: Q, s: Q)
    ensures
        q_eq(q_add(q_mul(a, s), q_mul(w, q_mul(b, s))), q_mul(q_add(a, q_mul(w, b)), s)),
{
    let lhs = q_add(q_mul(a, s), q_mul(w, q_mul(b, s)));
    let rhs = q_mul(q_add(a, q_mul(w, b)), s);
    let x = a.n * (w.d * b.d);
    let y = (w.n * b.n) * a.d;
    assert((a.n * s.n) * (w.d * (b.d * s.d)) == s.d * (x * s.n)) by (nonlinear_arith)
        requires
            x == a.n * (w.d * b.d),
    ;
    assert((w.n * (b.n * s.n)) * (a.d * s.d) == s.d * (y * s.n)) by (nonlinear_arith)
        requires
            y == (w.n * b.n) * a.d,
    ;
    assert(s.d * ((x + y) * s.n) == s.d * (x * s.n) + s.d * (y * s.n)) by (nonlinear_arith);
    assert(lhs.n == s.d * rhs.n);
    assert(lhs.d == s.d * rhs.d) by (nonlinear_arith)
        requires
            lhs.d == (a.d * s.d) * (w.d * (b.d * s.d)),
            rhs.d == (a.d * (w.d * b.d)) * s.d,
    ;
    assert(lhs.n * rhs.d == rhs.n * lhs.d) by (nonlinear_arith)
        requires
            lhs.n == s.d * rhs.n,
            lhs.d == s.d * rhs.d,
    ;
}

/// The combination over a matrix whose column `c` is `s` times that of `y` is `s` times the
/// combination over `y`.
proof fn lemma_combination_scaled_column(w: Seq<int>, x: BigMatrix, y: BigMatrix, c: int, s: Q, n: nat)
    requires
        x.wf(),
        y.wf(),
        x.row_count == y.row_count,
        0 <= c < x.column_count,
        c < y.column_count,
        n <= x.row_count,
        w.len() == x.row_count,
        q_wf(s),
        forall|t: int| 0 <= t < x.row_count ==> q_eq(#[trigger] x.entry(t, c), q_mul(y.entry(t, c), s)),
    ensures
        q_eq(q_dot(int_q_seq(w), x.column_values(c), n), q_mul(q_dot(int_q_seq(w), y.column_values(c), n), s)),
        q_wf(q_dot(int_q_seq(w), x.column_values(c), n)),
        q_wf(q_dot(int_q_seq(w), y.column_values(c), n)),
    decreases n,
{
    if n == 0 {
        let z = q_mul(q_int(0), s);
        assert(z.n == 0) by (nonlinear_arith)
            requires
                z.n == 0 * s.n,
        ;
    } else {
        let n1 = (n - 1) as nat;
        lemma_combination_scaled_column(w, x, y, c, s, n1);
        let px = q_dot(int_q_seq(w), x.column_values(c), n1);
        let py = q_dot(int_q_seq(w), y.column_values(c), n1);
        let wt = q_int(w[n1 as int]);
        let xt = x.entry(n1 as int, c);
        let yt = y.entry(n1 as int, c);
        assert(int_q_seq(w)[n1 as int] == wt);
        assert(x.column_values(c)[n1 as int] == xt);
        assert(y.column_values(c)[n1 as int] == yt);
        lemma_entry_wf(&x, n1 as int, c);
        lemma_entry_wf(&y, n1 as int, c);
        lemma_q_ops_wf(yt, s);
        lemma_q_ops_wf(py, s);
        lemma_q_mul_cong(wt, wt, xt, q_mul(yt, s));
        lemma_q_add_cong(px, q_mul(py, s), q_mul(wt, xt), q_mul(wt, q_mul(yt, s)));
        lemma_factor_right(py, wt, yt, s);
        lemma_q_ops_wf(wt, xt);
        lemma_q_ops_wf(px, q_mul(wt, xt));
        lemma_q_ops_wf(wt, q_mul(yt, s));
        lemma_q_ops_wf(q_mul(py, s), q_mul(wt, q_mul(yt, s)));
        lemma_q_eq_trans(
            q_add(px, q_mul(wt, xt)),
            q_add(q_mul(py, s), q_mul(wt, q_mul(yt, s))),
            q_mul(q_add(py, q_mul(wt, yt)), s),
        );
        lemma_q_ops_wf(wt, yt);
        lemma_q_ops_wf(py, q_mul(wt, yt));
        assert(q_dot(int_q_seq(w), x.column_values(c), n) == q_add(px, q_mul(wt, xt)));
        assert(q_dot(int_q_seq(w), y.column_values(c), n) == q_add(py, q_mul(wt, yt)));
    }
}

/// `(x * s) * (1 / s)` is `x`, for a nonzero `s`.
proof fn lemma_mul_reciprocal(x: Q, s: Q)
    requires
        q_wf(x),
        q_wf(s),
        s.n != 0,
    ensures
        q_eq(q_mul(q_mul(x, s), q_div(q_int(1), s)), x),
{
    let lhs = q_mul(q_mul(x, s), q_div(q_int(1), s));
    if s.n >= 0 {
        assert(lhs.n * x.d == x.n * lhs.d) by (nonlinear_arith)
            requires
                lhs.n == (x.n * s.n) * (1 * s.d),
                lhs.d == (x.d * s.d) * (1 * s.n),
        ;
    } else {
        assert(lhs.n * x.d == x.n * lhs.d) by (nonlinear_arith)
            requires
                lhs.n == (x.n * s.n) * (-(1 * s.d)),
                lhs.d == (x.d * s.d) * (-(1 * s.n)),
        ;
    }
}

/// Scaling the columns of a lattice by the nonzero diagonal of `scales`, taking points of the
/// scaled lattice and scaling them back by the inverse gives points of the lattice.
pub proof fn lemma_rescaled_in_lattice(
    base: BigMatrix,
    scales: BigMatrix,
    scaled: BigMatrix,
    inv: BigMatrix,
    points: BigMatrix,
    result: BigMatrix,
)
    requires
        base.wf(),
        scales.wf(),
        scaled.wf(),
        inv.wf(),
        points.wf(),
        result.wf(),
        invertible_diagonal(&scales),
        scales.row_count == base.column_count,
        scaled.row_count == base.row_count,
        scaled.column_count == base.column_count,
        forall|r: int, c: int|
            0 <= r < base.row_count && 0 <= c < base.column_count ==> q_eq(
                #[trigger] scaled.entry(r, c),
                q_dot(base.row_values(r), scales.column_values(c), base.column_count as nat),
            ),
        inv.row_count == scales.row_count,
        inv.column_count == scales.row_count,
        forall|r: int, c: int|
            0 <= r < scales.row_count && 0 <= c < scales.row_count ==> q_eq(
                #[trigger] inv.entry(r, c),
                q_div(delta(r, c), scales.entry(r, r)),
            ),
        points.column_count == base.column_count,
        forall|i: int| 0 <= i < points.row_count ==> in_lattice(points, i, scaled),
        result.row_count == points.row_count,
        result.column_count == points.column_count,
        forall|r: int, c: int|
            0 <= r < points.row_count && 0 <= c < points.column_count ==> q_eq(
                #[trigger] result.entry(r, c),
                q_dot(points.row_values(r), inv.column_values(c), points.column_count as nat),
            ),
    ensures
        forall|i: int| 0 <= i < result.row_count ==> in_lattice(result, i, base),
{
    let d = base.column_count as nat;
    // the scaled lattice is the lattice with column `c` scaled by `scales[c][c]`
    assert forall|t: int, c: int| 0 <= t < base.row_count && 0 <= c < d implies q_eq(
        #[trigger] scaled.entry(t, c),
        q_mul(base.entry(t, c), scales.entry(c, c)),
    ) by {
        let row = base.row_values(t);
        let col = scales.column_values(c);
        assert forall|k: int| 0 <= k < row.len() implies q_wf(#[trigger] row[k]) by {
            lemma_entry_wf(&base, t, k);
        }
        assert forall|k: int| 0 <= k < col.len() implies q_wf(#[trigger] col[k]) by {
            lemma_entry_wf(&scales, k, c);
        }
        assert forall|k: int| 0 <= k < d && k != c implies (#[trigger] col[k]).n == 0 by {
            assert(col[k] == scales.entry(k, c));
        }
        lemma_dot_one_term(row, col, d, c);
        lemma_q_eq_trans(scaled.entry(t, c), q_dot(row, col, d), q_mul(base.entry(t, c), scales.entry(c, c)));
    }
    assert forall|i: int| 0 <= i < result.row_count implies in_lattice(result, i, base) by {
        assert(in_lattice(points, i, scaled));
        let w = choose|w: Seq<int>| #[trigger] row_combines(points, i, scaled, w);
        assert(row_combines(points, i, scaled, w));
        assert forall|c: int| 0 <= c < result.column_count implies q_eq(#[trigger] result.entry(i, c), combination(w, base, c)) by {
            let sc = scales.entry(c, c);
            let pic = points.entry(i, c);
            let prow = points.row_values(i);
            let icol = inv.column_values(c);
            lemma_entry_wf(&scales, c, c);
            lemma_entry_wf(&points, i, c);
            assert forall|k: int| 0 <= k < prow.len() implies q_wf(#[trigger] prow[k]) by {
                lemma_entry_wf(&points, i, k);
            }
            assert forall|k: int| 0 <= k < icol.len() implies q_wf(#[trigger] icol[k]) by {
                lemma_entry_wf(&inv, k, c);
            }
            assert forall|k: int| 0 <= k < d && k != c implies (#[trigger] icol[k]).n == 0 by {
                assert(icol[k] == inv.entry(k, c));
                lemma_entry_wf(&inv, k, c);
                lemma_entry_wf(&scales, k, k);
                let z = q_div(delta(k, c), scales.entry(k, k));
                lemma_q_ops_wf(delta(k, c), scales.entry(k, k));
                assert(z.n == 0) by (nonlinear_arith)
                    requires
                        z.n == 0 * scales.entry(k, k).d || z.n == -(0 * scales.entry(k, k).d),
                ;
                crate::math::component::rational::lemma_q_eq_zero_one(inv.entry(k, c), z);
            }
            // result[i][c] = points[i][c] / s_c
            lemma_dot_one_term(prow, icol, d, c);
            let ic = inv.entry(c, c);
            assert(icol[c] == ic);
            lemma_entry_wf(&inv, c, c);
            lemma_q_ops_wf(pic, ic);
            lemma_q_eq_trans(result.entry(i, c), q_dot(prow, icol, d), q_mul(pic, ic));
            // points[i][c] = combination over the scaled lattice = combination over the lattice times s_c
            lemma_combination_scaled_column(w, scaled, base, c, sc, base.row_count as nat);
            let cs = combination(w, scaled, c);
            let cb = combination(w, base, c);
            lemma_q_eq_trans(pic, cs, q_mul(cb, sc));
            lemma_q_ops_wf(cb, sc);
            lemma_q_mul_cong(pic, q_mul(cb, sc), ic, q_div(q_int(1), sc));
            lemma_q_eq_trans(result.entry(i, c), q_mul(pic, ic), q_mul(q_mul(cb, sc), q_div(q_int(1), sc)));
            lemma_q_ops_wf(q_int(1), sc);
            lemma_q_ops_wf(q_mul(cb, sc), q_div(q_int(1), sc));
            lemma_mul_reciprocal(cb, sc);
            lemma_q_eq_trans(result.entry(i, c), q_mul(q_mul(cb, sc), q_div(q_int(1), sc)), cb);
        }
        assert(row_combines(result, i, base, w));
    }
}

/// The vector `v` is the combination of the rows of `base` with the integer weights `w`.
pub open spec fn point_combines(v: Seq<Q>, base: BigMatrix, w: Seq<int>) -> bool {
    &&& w.len() == base.row_count
    &&& forall|c: int| 0 <= c < v.len() ==> q_eq(#[trigger] v[c], combination(w, base, c))
}

/// The vector `v` is a point of the lattice spanned by the rows of `base`.
pub open spec fn point_in_lattice(v: Seq<Q>, base: BigMatrix) -> bool {
    exists|w: Seq<int>| #[trigger] point_combines(v, base, w)
}

/// The weights `f[0] * ws[0] + ... + f[n - 1] * ws[n - 1]`, of length `len`.
pub open spec fn weights_combination(f: Seq<int>, ws: Seq<Seq<int>>, n: nat, len: nat) -> Seq<int>
    decreases n,
{
    if n == 0 {
        Seq::new(len, |t: int| 0int)
    } else {
        let prev = weights_combination(f, ws, (n - 1) as nat, len);
        Seq::new(len, |t: int| prev[t] + f[n - 1] * ws[n - 1][t])
    }
}

/// The scaled sum is linear: `a + k * b` gives the sum for `a` plus `k` times that for `b`.
proof fn lemma_scaled_sum_add(a: Seq<int>, b: Seq<int>, k: int, base: BigMatrix, c: int, n: nat)
    requires
        n <= a.len(),
        a.len() == b.len(),
    ensures
        scaled_sum(Seq::new(a.len(), |t: int| a[t] + k * b[t]), base, c, n) == scaled_sum(a, base, c, n) + k * scaled_sum(b, base, c, n),
    decreases n,
{
    if n > 0 {
        let n1 = (n - 1) as nat;
        lemma_scaled_sum_add(a, b, k, base, c, n1);
        let se = scaled_entry(base, c, n1 as int);
        let x = a[n1 as int];
        let y = b[n1 as int];
        let sb = scaled_sum(b, base, c, n1);
        assert((x + k * y) * se == x * se + k * (y * se)) by (nonlinear_arith);
        assert(k * (sb + y * se) == k * sb + k * (y * se)) by (nonlinear_arith);
    }
}

/// The scaled sum of a combination of weights is the combination of their scaled sums.
proof fn lemma_scaled_sum_combination(f: Seq<int>, ws: Seq<Seq<int>>, n: nat, base: BigMatrix, c: int)
    requires
        n <= f.len(),
        n <= ws.len(),
        forall|i: int| 0 <= i < ws.len() ==> (#[trigger] ws[i]).len() == base.row_count,
    ensures
        weights_combination(f, ws, n, base.row_count as nat).len() == base.row_count,
        scaled_sum(weights_combination(f, ws, n, base.row_count as nat), base, c, base.row_count as nat) == int_scaled_total(
            f,
            ws,
            n,
            base,
            c,
        ),
    decreases n,
{
    let len = base.row_count as nat;
    if n == 0 {
        lemma_scaled_sum_zero(base, c, len);
    } else {
        let n1 = (n - 1) as nat;
        lemma_scaled_sum_combination(f, ws, n1, base, c);
        let prev = weights_combination(f, ws, n1, len);
        lemma_scaled_sum_add(prev, ws[n1 as int], f[n1 as int], base, c, len);
        assert(weights_combination(f, ws, n, len) == Seq::new(prev.len(), |t: int| prev[t] + f[n1 as int] * ws[n1 as int][t]));
    }
}

/// The scaled sum of zero weights is zero.
proof fn lemma_scaled_sum_zero(base: BigMatrix, c: int, n: nat)
    requires
        n <= base.row_count,
    ensures
        scaled_sum(Seq::new(base.row_count as nat, |t: int| 0int), base, c, n) == 0,
    decreases n,
{
    if n > 0 {
        lemma_scaled_sum_zero(base, c, (n - 1) as nat);
        assert(Seq::new(base.row_count as nat, |t: int| 0int)[n - 1] == 0);
    }
}

/// `f[0] * S(ws[0]) + ... + f[n - 1] * S(ws[n - 1])` for the scaled sums `S` of column `c`.
pub open spec fn int_scaled_total(f: Seq<int>, ws: Seq<Seq<int>>, n: nat, base: BigMatrix, c: int) -> int
    decreases n,
{
    if n == 0 {
        0
    } else {
        int_scaled_total(f, ws, (n - 1) as nat, base, c) + f[n - 1] * scaled_sum(ws[n - 1], base, c, base.row_count as nat)
    }
}

/// Over the common denominator of column `c`, the combination of points with weights `f`
/// is the total of their scaled sums.
proof fn lemma_points_combination_scaled(pts: BigMatrix, base: BigMatrix, ws: Seq<Seq<int>>, f: Seq<int>, c: int, n: nat)
    requires
        base.wf(),
        pts.wf(),
        0 <= c < pts.column_count,
        pts.column_count == base.column_count,
        n <= pts.row_count,
        f.len() == pts.row_count,
        ws.len() == pts.row_count,
        forall|i: int| 0 <= i < pts.row_count ==> row_combines(pts, i, base, #[trigger] ws[i]),
    ensures
        q_eq(
            q_dot(int_q_seq(f), pts.column_values(c), n),
            Q { n: int_scaled_total(f, ws, n, base, c), d: denominators(base, c, base.row_count as nat) },
        ),
        q_wf(q_dot(int_q_seq(f), pts.column_values(c), n)),
    decreases n,
{
    let big = denominators(base, c, base.row_count as nat);
    lemma_denominators(base, c, base.row_count as nat);
    if n > 0 {
        let n1 = (n - 1) as nat;
        lemma_points_combination_scaled(pts, base, ws, f, c, n1);
        let prev = q_dot(int_q_seq(f), pts.column_values(c), n1);
        let tot = int_scaled_total(f, ws, n1, base, c);
        let e = pts.entry(n1 as int, c);
        let fi = f[n1 as int];
        let wi = ws[n1 as int];
        assert(row_combines(pts, n1 as int, base, wi));
        assert(int_q_seq(f)[n1 as int] == q_int(fi));
        assert(pts.column_values(c)[n1 as int] == e);
        let se = scaled_sum(wi, base, c, base.row_count as nat);
        assert(q_eq(e, combination(wi, base, c)));
        lemma_combination_scaled(wi, base, c);
        lemma_entry_wf(&pts, n1 as int, c);
        lemma_q_eq_trans(e, combination(wi, base, c), scaled_combination(wi, base, c));
        lemma_q_mul_cong(q_int(fi), q_int(fi), e, Q { n: se, d: big });
        lemma_q_add_cong(prev, Q { n: tot, d: big }, q_mul(q_int(fi), e), q_mul(q_int(fi), Q { n: se, d: big }));
        let sum_scaled = q_add(Q { n: tot, d: big }, q_mul(q_int(fi), Q { n: se, d: big }));
        assert(q_eq(sum_scaled, Q { n: tot + fi * se, d: big })) by (nonlinear_arith)
            requires
                sum_scaled == q_add(Q { n: tot, d: big }, q_mul(q_int(fi), Q { n: se, d: big })),
        ;
        lemma_q_ops_wf(q_int(fi), e);
        lemma_q_ops_wf(prev, q_mul(q_int(fi), e));
        assert(big * (1 * big) > 0) by (nonlinear_arith)
            requires
                big > 0,
        ;
        lemma_q_eq_trans(q_add(prev, q_mul(q_int(fi), e)), sum_scaled, Q { n: tot + fi * se, d: big });
        assert(q_dot(int_q_seq(f), pts.column_values(c), n) == q_add(prev, q_mul(q_int(fi), e)));
        assert(int_scaled_total(f, ws, n, base, c) == tot + fi * se);
    }
}

/// Integer combinations of points of a lattice are points of the lattice: where every row of
/// `pts` is a point of the lattice of `base`, a vector whose entries are the combinations of
/// the columns of `pts` with integer weights `f` is a point of the lattice.
pub proof fn lemma_lattice_closed(pts: BigMatrix, base: BigMatrix, f: Seq<int>, v: Seq<Q>)
    requires
        base.wf(),
        pts.wf(),
        pts.column_count == base.column_count,
        forall|i: int| 0 <= i < pts.row_count ==> in_lattice(pts, i, base),
        f.len() == pts.row_count,
        v.len() == pts.column_count,
        forall|c: int| 0 <= c < v.len() ==> q_eq(#[trigger] v[c], q_dot(int_q_seq(f), pts.column_values(c), pts.row_count as nat)),
    ensures
        point_in_lattice(v, base),
{
    let n = pts.row_count as nat;
    let ws = Seq::new(n, |i: int| choose|w: Seq<int>| #[trigger] row_combines(pts, i, base, w));
    assert forall|i: int| 0 <= i < pts.row_count implies row_combines(pts, i, base, #[trigger] ws[i]) by {
        assert(in_lattice(pts, i, base));
    }
    assert forall|i: int| 0 <= i < ws.len() implies (#[trigger] ws[i]).len() == base.row_count by {
        assert(row_combines(pts, i, base, ws[i]));
    }
    let w = weights_combination(f, ws, n, base.row_count as nat);
    assert forall|c: int| 0 <= c < v.len() implies q_eq(#[trigger] v[c], combination(w, base, c)) by {
        lemma_points_combination_scaled(pts, base, ws, f, c, n);
        lemma_scaled_sum_combination(f, ws, n, base, c);
        lemma_combination_scaled(w, base, c);
        lemma_denominators(base, c, base.row_count as nat);
        let x = q_dot(int_q_seq(f), pts.column_values(c), n);
        lemma_q_eq_trans(v[c], x, scaled_combination(w, base, c));
        lemma_q_eq_trans(v[c], scaled_combination(w, base, c), combination(w, base, c));
    }
    lemma_scaled_sum_combination(f, ws, n, base, 0);
    assert(point_combines(v, base, w));
}

} // verus!
