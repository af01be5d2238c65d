use crate::math::component::big_matrix::{lemma_entry_wf, lemma_mat_index, BigMatrix};
use crate::math::component::big_vector::{vec_scale, Vector};
use crate::math::component::rational::{
    lemma_q_add_cong, lemma_q_mul_cong, lemma_q_add_mul, lemma_q_add_sub_swap, lemma_q_mul_swap, lemma_q_sub_mul, lemma_q_div_facts, lemma_q_dot_wf, lemma_q_eq_trans, lemma_q_eq_zero_one, lemma_q_mul_zero, lemma_q_ops_wf,
    lemma_q_sub_cong, lemma_q_sub_one_mul, lemma_q_sub_zero, q_add, q_div, q_dot, q_eq, q_int, q_is_one, q_is_zero, q_mul, q_sub,
    q_neg, q_wf, wf_rat, BigRational, Q,
};
use vstd::prelude::*;

verus! {

/// Row `r` of the identity of size `len`.
pub open spec fn unit_q(len: nat, r: int) -> Seq<Q> {
    Seq::new(len, |k: int| q_int(if k == r { 1 } else { 0 }))
}

/// `a` with `p * s` taken from each entry.
pub open spec fn sub_scaled(a: Seq<Q>, p: Seq<Q>, s: Q) -> Seq<Q> {
    Seq::new(a.len(), |k: int| q_sub(a[k], q_mul(p[k], s)))
}

/// Every entry multiplied by `s`.
pub open spec fn scaled(a: Seq<Q>, s: Q) -> Seq<Q> {
    Seq::new(a.len(), |k: int| q_mul(a[k], s))
}

/// Every entry has a positive denominator.
pub open spec fn seq_wf(a: Seq<Q>) -> bool {
    forall|k: int| 0 <= k < a.len() ==> q_wf(#[trigger] a[k])
}

/// Adding a zero changes nothing.
proof fn lemma_add_zero(a: Q, z: Q)
    requires
        q_wf(a),
        q_wf(z),
        z.n == 0,
    ensures
        q_eq(q_add(a, z), a),
{
    assert((a.n * z.d + z.n * a.d) * a.d == a.n * (a.d * z.d)) by (nonlinear_arith)
        requires
            z.n == 0,
    ;
}

/// The first `m` products of a unit row with `b` add up to the entry it selects, once `m`
/// passes it.
proof fn lemma_dot_unit(b: Seq<Q>, len: nat, r: int, m: nat)
    requires
        0 <= r < len,
        m <= len,
        m <= b.len(),
        seq_wf(b),
    ensures
        q_eq(q_dot(unit_q(len, r), b, m), if r < m { b[r] } else { q_int(0) }),
        q_wf(q_dot(unit_q(len, r), b, m)),
    decreases m,
{
    let u = unit_q(len, r);
    if m > 0 {
        lemma_dot_unit(b, len, r, (m - 1) as nat);
        let prev = q_dot(u, b, (m - 1) as nat);
        let t = q_mul(u[m - 1], b[m - 1]);
        lemma_q_ops_wf(u[m - 1], b[m - 1]);
        lemma_q_ops_wf(prev, t);
        if m - 1 == r {
            lemma_q_add_cong(prev, q_int(0), t, b[r]);
            assert(q_eq(q_add(q_int(0), b[r]), b[r])) by (nonlinear_arith)
                requires
                    q_wf(b[r]),
            ;
            lemma_q_ops_wf(q_int(0), b[r]);
            lemma_q_eq_trans(q_add(prev, t), q_add(q_int(0), b[r]), b[r]);
        } else {
            assert(t.n == 0);
            lemma_add_zero(prev, t);
            let want = if r < m - 1 { b[r] } else { q_int(0) };
            lemma_q_eq_trans(q_add(prev, t), prev, want);
        }
    } else {
        assert(q_eq(q_int(0), q_int(0)));
    }
}

/// Scaling every left factor scales the sum of products.
proof fn lemma_dot_scaled(a: Seq<Q>, b: Seq<Q>, n: nat, c: Q)
    requires
        n <= a.len(),
        n <= b.len(),
        seq_wf(a),
        seq_wf(b),
        q_wf(c),
    ensures
        q_eq(q_dot(scaled(a, c), b, n), q_mul(q_dot(a, b, n), c)),
    decreases n,
{
    if n > 0 {
        let m = (n - 1) as nat;
        lemma_dot_scaled(a, b, m, c);
        let x = q_dot(a, b, m);
        let xs = q_dot(scaled(a, c), b, m);
        let y = a[m as int];
        let z = b[m as int];
        assert(seq_wf(scaled(a, c))) by {
            assert forall|k: int| 0 <= k < scaled(a, c).len() implies q_wf(#[trigger] scaled(a, c)[k]) by {
                lemma_q_ops_wf(a[k], c);
            }
        }
        lemma_q_dot_wf(a, b, m);
        lemma_q_dot_wf(scaled(a, c), b, m);
        lemma_q_ops_wf(y, c);
        lemma_q_ops_wf(q_mul(y, c), z);
        lemma_q_ops_wf(x, c);
        lemma_q_ops_wf(y, z);
        lemma_q_ops_wf(x, q_mul(y, z));
        lemma_q_ops_wf(y, z);
        lemma_q_ops_wf(q_mul(y, z), c);
        lemma_q_mul_swap(y, c, z);
        lemma_q_mul_swap(y, z, c);
        lemma_q_add_cong(xs, q_mul(x, c), q_mul(q_mul(y, c), z), q_mul(q_mul(y, z), c));
        lemma_q_add_mul(x, q_mul(y, z), c);
        lemma_q_ops_wf(q_mul(x, c), q_mul(q_mul(y, z), c));
        lemma_q_eq_trans(
            q_add(xs, q_mul(q_mul(y, c), z)),
            q_add(q_mul(x, c), q_mul(q_mul(y, z), c)),
            q_mul(q_add(x, q_mul(y, z)), c),
        );
    } else {
        let z = q_mul(q_int(0), c);
        assert(z.n == 0 * c.n);
        assert(z.n == 0);
        assert(z.d == 1 * c.d);
        assert(q_eq(q_int(0), z));
    }
}

/// Taking `p * s` from each left factor takes `(p . b) * s` from the sum of products.
proof fn lemma_dot_sub_scaled(a: Seq<Q>, p: Seq<Q>, b: Seq<Q>, n: nat, s: Q)
    requires
        n <= a.len(),
        a.len() == p.len(),
        n <= b.len(),
        seq_wf(a),
        seq_wf(p),
        seq_wf(b),
        q_wf(s),
    ensures
        q_eq(q_dot(sub_scaled(a, p, s), b, n), q_sub(q_dot(a, b, n), q_mul(q_dot(p, b, n), s))),
    decreases n,
{
    if n > 0 {
        let m = (n - 1) as nat;
        lemma_dot_sub_scaled(a, p, b, m, s);
        let sa = sub_scaled(a, p, s);
        assert(seq_wf(sa)) by {
            assert forall|k: int| 0 <= k < sa.len() implies q_wf(#[trigger] sa[k]) by {
                lemma_q_ops_wf(p[k], s);
                lemma_q_ops_wf(a[k], q_mul(p[k], s));
            }
        }
        let x = q_dot(a, b, m);
        let y = q_dot(p, b, m);
        let w = q_dot(sa, b, m);
        let ai = a[m as int];
        let pi = p[m as int];
        let z = b[m as int];
        lemma_q_dot_wf(a, b, m);
        lemma_q_dot_wf(p, b, m);
        lemma_q_dot_wf(sa, b, m);
        lemma_q_ops_wf(pi, s);
        lemma_q_ops_wf(ai, q_mul(pi, s));
        lemma_q_ops_wf(q_sub(ai, q_mul(pi, s)), z);
        lemma_q_ops_wf(y, s);
        lemma_q_ops_wf(x, q_mul(y, s));
        let ps = q_mul(pi, s);
        let ys = q_mul(y, s);
        let az = q_mul(ai, z);
        let pz = q_mul(pi, z);
        let t = q_mul(q_sub(ai, ps), z);
        lemma_q_ops_wf(ai, z);
        lemma_q_ops_wf(pi, z);
        lemma_q_ops_wf(ps, z);
        lemma_q_ops_wf(pz, s);
        lemma_q_ops_wf(az, q_mul(ps, z));
        lemma_q_ops_wf(x, ys);
        lemma_q_ops_wf(x, az);
        lemma_q_ops_wf(ys, q_mul(ps, z));
        lemma_q_ops_wf(ys, q_mul(pz, s));
        lemma_q_ops_wf(y, pz);
        lemma_q_ops_wf(q_add(y, pz), s);
        lemma_q_ops_wf(q_add(x, az), q_add(ys, q_mul(ps, z)));
        lemma_q_ops_wf(q_add(x, az), q_add(ys, q_mul(pz, s)));
        lemma_q_ops_wf(q_sub(x, ys), q_sub(az, q_mul(ps, z)));
        // w + t == (x - y s) + (a z - (p s) z)
        lemma_q_sub_mul(ai, ps, z);
        lemma_q_add_cong(w, q_sub(x, ys), t, q_sub(az, q_mul(ps, z)));
        let l1 = q_add(q_sub(x, ys), q_sub(az, q_mul(ps, z)));
        // == (x + a z) - (y s + (p s) z)
        lemma_q_add_sub_swap(x, ys, az, q_mul(ps, z));
        let l2 = q_sub(q_add(x, az), q_add(ys, q_mul(ps, z)));
        lemma_q_eq_trans(q_add(w, t), l1, l2);
        // == (x + a z) - (y s + (p z) s)
        lemma_q_mul_swap(pi, s, z);
        assert(q_eq(ys, ys));
        lemma_q_add_cong(ys, ys, q_mul(ps, z), q_mul(pz, s));
        assert(q_eq(q_add(x, az), q_add(x, az)));
        lemma_q_sub_cong(q_add(x, az), q_add(x, az), q_add(ys, q_mul(ps, z)), q_add(ys, q_mul(pz, s)));
        let l3 = q_sub(q_add(x, az), q_add(ys, q_mul(pz, s)));
        lemma_q_eq_trans(q_add(w, t), l2, l3);
        // == (x + a z) - (y + p z) s
        lemma_q_add_mul(y, pz, s);
        lemma_q_sub_cong(q_add(x, az), q_add(x, az), q_add(ys, q_mul(pz, s)), q_mul(q_add(y, pz), s));
        lemma_q_eq_trans(q_add(w, t), l3, q_sub(q_add(x, az), q_mul(q_add(y, pz), s)));
    } else {
        let z = q_sub(q_int(0), q_mul(q_int(0), s));
        assert(q_mul(q_int(0), s).n == 0 * s.n);
        assert(z.n == 0 * (1 * s.d) - (0 * s.n) * 1);
        assert(0 * (1 * s.d) - (0 * s.n) * 1 == 0) by (nonlinear_arith);
        assert(z.n == 0);
        assert(z.d == 1 * (1 * s.d));
        assert(q_eq(q_int(0), z));
    }
}

/// Each of the first `n` rows of `m` combines the first `n` rows of `base` with the weights
/// of its row in `w` (`m = w * base` there, column by column); the rows from `n` on are those
/// of `base`.
pub open spec fn transformed_by(base: BigMatrix, m: BigMatrix, w: Seq<Seq<Q>>, n: int) -> bool {
    &&& m.row_count == base.row_count
    &&& m.column_count == base.column_count
    &&& w.len() == n
    &&& forall|r: int| 0 <= r < n ==> (#[trigger] w[r]).len() == n && seq_wf(w[r])
    &&& forall|r: int, c: int|
        0 <= r < n && 0 <= c < m.column_count ==> q_eq(#[trigger] m.entry(r, c), q_dot(w[r], base.column_values(c), n as nat))
    &&& forall|r: int, c: int| n <= r < m.row_count && 0 <= c < m.column_count ==> #[trigger] m.entry(r, c) == base.entry(r, c)
}

/// The identity weights of size `n`.
pub open spec fn identity_q(n: nat) -> Seq<Seq<Q>> {
    Seq::new(n, |r: int| unit_q(n, r))
}

/// Every matrix of `ms` combines the rows of the matching matrix of `bases` with the weights
/// `w`.
pub open spec fn all_transformed_by(bases: Seq<BigMatrix>, ms: Seq<BigMatrix>, w: Seq<Seq<Q>>, n: int) -> bool {
    &&& ms.len() == bases.len()
    &&& forall|k: int| 0 <= k < ms.len() ==> #[trigger] transformed_by(bases[k], ms[k], w, n)
}

/// `q_div(x, s)` is `x` times the reciprocal of `s`.
proof fn lemma_div_as_mul(x: Q, s: Q)
    requires
        s.n != 0,
    ensures
        q_eq(q_div(x, s), q_mul(x, q_div(q_int(1), s))),
{
    let l = q_div(x, s);
    let r = q_mul(x, q_div(q_int(1), s));
    if s.n >= 0 {
        assert(r.n == x.n * (1 * s.d) && r.d == x.d * (1 * s.n));
    } else {
        assert(r.n == x.n * (-(1 * s.d)) && r.d == x.d * (-(1 * s.n)));
        assert(x.n * (-(1 * s.d)) == -(x.n * s.d)) by (nonlinear_arith);
        assert(x.d * (-(1 * s.n)) == -(x.d * s.n)) by (nonlinear_arith);
    }
    assert(l.n == r.n && l.d == r.d) by (nonlinear_arith)
        requires
            s.n >= 0 ==> l.n == x.n * s.d && l.d == x.d * s.n,
            s.n < 0 ==> l.n == -(x.n * s.d) && l.d == -(x.d * s.n),
            s.n >= 0 ==> r.n == x.n * (1 * s.d) && r.d == x.d * (1 * s.n),
            s.n < 0 ==> r.n == -(x.n * s.d) && r.d == -(x.d * s.n),
    ;
}

/// The columns of a well-formed matrix hold well-formed rationals.
proof fn lemma_column_wf(m: &BigMatrix, c: int)
    requires
        m.wf(),
        0 <= c < m.column_count,
    ensures
        seq_wf(m.column_values(c)),
{
    assert forall|k: int| 0 <= k < m.column_values(c).len() implies q_wf(#[trigger] m.column_values(c)[k]) by {
        lemma_entry_wf(m, k, c);
    }
}

/// Dividing row `p` by `piv` divides its weights by it.
proof fn lemma_transformed_div(base: BigMatrix, m0: BigMatrix, m1: BigMatrix, w: Seq<Seq<Q>>, n: int, p: int, piv: Q)
    requires
        base.wf(),
        m0.wf(),
        m1.wf(),
        transformed_by(base, m0, w, n),
        0 <= p < n,
        n <= base.row_count || base.column_count == 0,
        q_wf(piv),
        piv.n != 0,
        m1.row_count == m0.row_count,
        m1.column_count == m0.column_count,
        forall|r: int, c: int| 0 <= r < m0.row_count && 0 <= c < m0.column_count && r != p ==> #[trigger] m1.entry(r, c) == m0.entry(r, c),
        forall|c: int| 0 <= c < m0.column_count ==> q_eq(#[trigger] m1.entry(p, c), q_div(m0.entry(p, c), piv)),
    ensures
        transformed_by(base, m1, w.update(p, scaled(w[p], q_div(q_int(1), piv))), n),
{
    let inv = q_div(q_int(1), piv);
    lemma_q_ops_wf(q_int(1), piv);
    let w1 = w.update(p, scaled(w[p], inv));
    assert forall|r: int| 0 <= r < n implies (#[trigger] w1[r]).len() == n && seq_wf(w1[r]) by {
        if r == p {
            assert forall|k: int| 0 <= k < w1[r].len() implies q_wf(#[trigger] w1[r][k]) by {
                lemma_q_ops_wf(w[p][k], inv);
            }
        }
    }
    assert forall|r: int, c: int| 0 <= r < n && 0 <= c < m1.column_count implies q_eq(
        #[trigger] m1.entry(r, c),
        q_dot(w1[r], base.column_values(c), n as nat),
    ) by {
        if r == p {
            let col = base.column_values(c);
            let x = m0.entry(p, c);
            let d = q_dot(w[p], col, n as nat);
            lemma_column_wf(&base, c);
            lemma_entry_wf(&m0, p, c);
            lemma_entry_wf(&m1, p, c);
            lemma_q_dot_wf(w[p], col, n as nat);
            lemma_div_as_mul(x, piv);
            lemma_q_ops_wf(x, piv);
            lemma_q_ops_wf(x, inv);
            lemma_q_ops_wf(d, inv);
            lemma_q_eq_trans(m1.entry(p, c), q_div(x, piv), q_mul(x, inv));
            assert(q_eq(inv, inv));
            lemma_q_mul_cong(x, d, inv, inv);
            lemma_q_eq_trans(m1.entry(p, c), q_mul(x, inv), q_mul(d, inv));
            lemma_dot_scaled(w[p], col, n as nat, inv);
            lemma_q_eq_trans(m1.entry(p, c), q_mul(d, inv), q_dot(scaled(w[p], inv), col, n as nat));
        }
    }
}

/// Taking `s` times row `p` from row `i` takes `s` times the weights of `p` from those of `i`.
proof fn lemma_transformed_elim(
    base: BigMatrix,
    m0: BigMatrix,
    m1: BigMatrix,
    w: Seq<Seq<Q>>,
    n: int,
    p: int,
    i: int,
    s: Q,
    sv: Seq<Q>,
)
    requires
        base.wf(),
        m0.wf(),
        m1.wf(),
        transformed_by(base, m0, w, n),
        0 <= p < n,
        0 <= i < n,
        i != p,
        n <= base.row_count || base.column_count == 0,
        q_wf(s),
        seq_wf(sv),
        sv.len() >= m0.column_count,
        m1.row_count == m0.row_count,
        m1.column_count == m0.column_count,
        forall|r: int, c: int| 0 <= r < m0.row_count && 0 <= c < m0.column_count && r != i ==> #[trigger] m1.entry(r, c) == m0.entry(r, c),
        forall|c: int| 0 <= c < m0.column_count ==> q_eq(#[trigger] sv[c], q_mul(m0.entry(p, c), s)),
        forall|c: int| 0 <= c < m0.column_count ==> q_eq(#[trigger] m1.entry(i, c), q_sub(m0.entry(i, c), sv[c])),
    ensures
        transformed_by(base, m1, w.update(i, sub_scaled(w[i], w[p], s)), n),
{
    let w1 = w.update(i, sub_scaled(w[i], w[p], s));
    assert forall|r: int| 0 <= r < n implies (#[trigger] w1[r]).len() == n && seq_wf(w1[r]) by {
        if r == i {
            assert forall|k: int| 0 <= k < w1[r].len() implies q_wf(#[trigger] w1[r][k]) by {
                lemma_q_ops_wf(w[p][k], s);
                lemma_q_ops_wf(w[i][k], q_mul(w[p][k], s));
            }
        }
    }
    assert forall|r: int, c: int| 0 <= r < n && 0 <= c < m1.column_count implies q_eq(
        #[trigger] m1.entry(r, c),
        q_dot(w1[r], base.column_values(c), n as nat),
    ) by {
        if r == i {
            let col = base.column_values(c);
            let xi = m0.entry(i, c);
            let xp = m0.entry(p, c);
            let di = q_dot(w[i], col, n as nat);
            let dp = q_dot(w[p], col, n as nat);
            lemma_column_wf(&base, c);
            lemma_entry_wf(&m0, i, c);
            lemma_entry_wf(&m0, p, c);
            lemma_entry_wf(&m1, i, c);
            lemma_q_dot_wf(w[i], col, n as nat);
            lemma_q_dot_wf(w[p], col, n as nat);
            assert(q_eq(s, s));
            lemma_q_mul_cong(xp, dp, s, s);
            lemma_q_ops_wf(xp, s);
            lemma_q_ops_wf(dp, s);
            lemma_q_eq_trans(sv[c], q_mul(xp, s), q_mul(dp, s));
            lemma_q_sub_cong(xi, di, sv[c], q_mul(dp, s));
            lemma_q_ops_wf(xi, sv[c]);
            lemma_q_ops_wf(di, q_mul(dp, s));
            lemma_q_eq_trans(m1.entry(i, c), q_sub(xi, sv[c]), q_sub(di, q_mul(dp, s)));
            lemma_dot_sub_scaled(w[i], w[p], col, n as nat, s);
            lemma_q_eq_trans(m1.entry(i, c), q_sub(di, q_mul(dp, s)), q_dot(sub_scaled(w[i], w[p], s), col, n as nat));
        }
    }
}

/// Swapping rows `a` and `b` swaps their weights.
proof fn lemma_transformed_swap(base: BigMatrix, m0: BigMatrix, m1: BigMatrix, w: Seq<Seq<Q>>, n: int, a: int, b: int)
    requires
        transformed_by(base, m0, w, n),
        0 <= a < n,
        0 <= b < n,
        n <= m0.row_count || m0.column_count == 0,
        m1.row_count == m0.row_count,
        m1.column_count == m0.column_count,
        forall|r: int, c: int|
            0 <= r < m0.row_count && 0 <= c < m0.column_count ==> #[trigger] m1.entry(r, c) == m0.entry(
                if r == a {
                    b
                } else if r == b {
                    a
                } else {
                    r
                },
                c,
            ),
    ensures
        transformed_by(base, m1, w.update(a, w[b]).update(b, w[a]), n),
{
    let w1 = w.update(a, w[b]).update(b, w[a]);
    assert forall|r: int, c: int| 0 <= r < n && 0 <= c < m1.column_count implies q_eq(
        #[trigger] m1.entry(r, c),
        q_dot(w1[r], base.column_values(c), n as nat),
    ) by {
        let src = if r == a {
            b
        } else if r == b {
            a
        } else {
            r
        };
        assert(m1.entry(r, c) == m0.entry(src, c));
        assert(w1[r] == w[src]);
    }
}

/// Sums of products over equal prefixes are equal.
proof fn lemma_dot_same_prefix(a: Seq<Q>, b: Seq<Q>, a2: Seq<Q>, b2: Seq<Q>, m: nat)
    requires
        forall|k: int| 0 <= k < m ==> a2[k] == a[k] && b2[k] == b[k],
    ensures
        q_dot(a2, b2, m) == q_dot(a, b, m),
    decreases m,
{
    if m > 0 {
        lemma_dot_same_prefix(a, b, a2, b2, (m - 1) as nat);
    }
}

/// `(x + t) + y` is `(x + y) + t`.
proof fn lemma_add_rotate(x: Q, t: Q, y: Q)
    requires
        q_wf(x),
        q_wf(t),
        q_wf(y),
    ensures
        q_eq(q_add(q_add(x, t), y), q_add(q_add(x, y), t)),
{
    let l = q_add(q_add(x, t), y);
    let r = q_add(q_add(x, y), t);
    vstd::arithmetic::mul::lemma_mul_is_distributive_add_other_way(y.d, x.n * t.d, t.n * x.d);
    vstd::arithmetic::mul::lemma_mul_is_distributive_add_other_way(t.d, x.n * y.d, y.n * x.d);
    assert((x.n * t.d) * y.d == (x.n * y.d) * t.d) by (nonlinear_arith);
    assert((t.n * x.d) * y.d == t.n * (x.d * y.d)) by (nonlinear_arith);
    assert(y.n * (x.d * t.d) == (y.n * x.d) * t.d) by (nonlinear_arith);
    assert(l.d == r.d) by (nonlinear_arith)
        requires
            l.d == x.d * t.d * y.d,
            r.d == x.d * y.d * t.d,
    ;
}

/// Where two pairs of sequences agree but at `j`, and the product at `j` grows by `t`, the sum
/// of products grows by `t`.
proof fn lemma_dot_one_changed(a: Seq<Q>, b: Seq<Q>, a2: Seq<Q>, b2: Seq<Q>, n: nat, j: int, t: Q)
    requires
        0 <= j < n,
        n <= a.len(),
        n <= b.len(),
        n <= a2.len(),
        n <= b2.len(),
        seq_wf(a),
        seq_wf(b),
        q_wf(t),
        forall|k: int| 0 <= k < n && k != j ==> a2[k] == a[k] && b2[k] == b[k],
        q_wf(q_mul(a2[j], b2[j])),
        q_eq(q_mul(a2[j], b2[j]), q_add(q_mul(a[j], b[j]), t)),
    ensures
        q_eq(q_dot(a2, b2, n), q_add(q_dot(a, b, n), t)),
    decreases n,
{
    let m = (n - 1) as nat;
    lemma_q_dot_wf(a, b, m);
    let x = q_dot(a, b, m);
    if m == j {
        lemma_dot_same_prefix(a, b, a2, b2, m);
        let pj = q_mul(a[j], b[j]);
        lemma_q_ops_wf(a[j], b[j]);
        lemma_q_ops_wf(pj, t);
        assert(q_eq(x, x));
        lemma_q_add_cong(x, x, q_mul(a2[j], b2[j]), q_add(pj, t));
        let l = q_add(x, q_add(pj, t));
        let r = q_add(q_add(x, pj), t);
        assert(x.n * (pj.d * t.d) == (x.n * pj.d) * t.d) by (nonlinear_arith);
        assert((pj.n * t.d + t.n * pj.d) * x.d == (pj.n * x.d) * t.d + t.n * (x.d * pj.d)) by (nonlinear_arith);
        assert((x.n * pj.d + pj.n * x.d) * t.d == (x.n * pj.d) * t.d + (pj.n * x.d) * t.d) by (nonlinear_arith);
        assert(l.d == r.d) by (nonlinear_arith)
            requires
                l.d == x.d * (pj.d * t.d),
                r.d == x.d * pj.d * t.d,
        ;
        lemma_q_ops_wf(x, q_add(pj, t));
        lemma_q_eq_trans(q_dot(a2, b2, n), l, r);
    } else {
        lemma_dot_one_changed(a, b, a2, b2, m, j, t);
        let y = q_mul(a[m as int], b[m as int]);
        lemma_q_ops_wf(a[m as int], b[m as int]);
        lemma_q_ops_wf(x, t);
        assert(q_eq(y, y));
        lemma_q_add_cong(q_dot(a2, b2, m), q_add(x, t), y, y);
        lemma_add_rotate(x, t, y);
        lemma_q_ops_wf(q_add(x, t), y);
        lemma_q_eq_trans(q_dot(a2, b2, n), q_add(q_add(x, t), y), q_add(q_add(x, y), t));
    }
}

/// `p` equals `q + (p - q)`.
proof fn lemma_add_difference(p: Q, q: Q)
    requires
        q_wf(p),
        q_wf(q),
    ensures
        q_eq(p, q_add(q, q_sub(p, q))),
{
    let d = q_sub(p, q);
    let r = q_add(q, d);
    assert(r.n == q.n * (p.d * q.d) + (p.n * q.d - q.n * p.d) * q.d);
    assert(r.n == p.n * (q.d * q.d)) by (nonlinear_arith)
        requires
            r.n == q.n * (p.d * q.d) + (p.n * q.d - q.n * p.d) * q.d,
    ;
    assert(r.d == q.d * (p.d * q.d));
    assert(p.n * r.d == r.n * p.d) by (nonlinear_arith)
        requires
            r.n == p.n * (q.d * q.d),
            r.d == q.d * (p.d * q.d),
    ;
}

/// `(x + t) + u` equals `x` where `t + u` is zero.
proof fn lemma_add_cancels(x: Q, t: Q, u: Q)
    requires
        q_wf(x),
        q_wf(t),
        q_wf(u),
        t.n * u.d + u.n * t.d == 0,
    ensures
        q_eq(q_add(q_add(x, t), u), x),
{
    let l = q_add(q_add(x, t), u);
    let a = x.n * t.d;
    let b = t.n * x.d;
    vstd::arithmetic::mul::lemma_mul_is_distributive_add_other_way(u.d, a, b);
    assert(b * u.d == (t.n * u.d) * x.d) by (nonlinear_arith)
        requires
            b == t.n * x.d,
    ;
    assert(u.n * (x.d * t.d) == (u.n * t.d) * x.d) by (nonlinear_arith);
    vstd::arithmetic::mul::lemma_mul_is_distributive_add_other_way(x.d, t.n * u.d, u.n * t.d);
    assert(l.n == a * u.d);
    assert(l.d == (x.d * t.d) * u.d);
    assert(a * u.d * x.d == x.n * ((x.d * t.d) * u.d)) by (nonlinear_arith)
        requires
            a == x.n * t.d,
    ;
}

/// `(a * p) * (b / p)` equals `a * b + 0` for a nonzero `p`.
proof fn lemma_scaled_product(a: Q, p: Q, b: Q)
    requires
        q_wf(a),
        q_wf(p),
        q_wf(b),
        p.n != 0,
    ensures
        q_eq(q_mul(q_mul(a, p), q_div(b, p)), q_add(q_mul(a, b), q_int(0))),
{
    let l = q_mul(q_mul(a, p), q_div(b, p));
    let r = q_add(q_mul(a, b), q_int(0));
    let ab = a.n * b.n;
    let abd = a.d * b.d;
    assert(r.n == ab && r.d == abd);
    let pp = p.n * p.d;
    if p.n >= 0 {
        assert(l.n == ab * pp) by (nonlinear_arith)
            requires
                l.n == (a.n * p.n) * (b.n * p.d),
                ab == a.n * b.n,
                pp == p.n * p.d,
        ;
        assert(l.d == abd * pp) by (nonlinear_arith)
            requires
                l.d == (a.d * p.d) * (b.d * p.n),
                abd == a.d * b.d,
                pp == p.n * p.d,
        ;
        assert(l.n * r.d == r.n * l.d) by (nonlinear_arith)
            requires
                l.n == ab * pp,
                l.d == abd * pp,
                r.n == ab,
                r.d == abd,
        ;
    } else {
        assert(l.n == -(ab * pp)) by (nonlinear_arith)
            requires
                l.n == (a.n * p.n) * (-(b.n * p.d)),
                ab == a.n * b.n,
                pp == p.n * p.d,
        ;
        assert(l.d == -(abd * pp)) by (nonlinear_arith)
            requires
                l.d == (a.d * p.d) * (-(b.d * p.n)),
                abd == a.d * b.d,
                pp == p.n * p.d,
        ;
        assert(l.n * r.d == r.n * l.d) by (nonlinear_arith)
            requires
                l.n == -(ab * pp),
                l.d == -(abd * pp),
                r.n == ab,
                r.d == abd,
        ;
    }
}

/// `a * (b - m)` equals `a * b + -(a * m)`.
proof fn lemma_product_of_difference(a: Q, b: Q, m: Q)
    requires
        q_wf(a),
        q_wf(b),
        q_wf(m),
    ensures
        q_eq(q_mul(a, q_sub(b, m)), q_add(q_mul(a, b), q_neg(q_mul(a, m)))),
{
    let l = q_mul(a, q_sub(b, m));
    let r = q_add(q_mul(a, b), q_neg(q_mul(a, m)));
    let k = b.n * m.d - m.n * b.d;
    assert(l.n == a.n * k && l.d == a.d * (b.d * m.d));
    // r.n = (a.n b.n)(a.d m.d) - (a.n m.n)(a.d b.d) = a.d * (a.n * k)
    assert((a.n * b.n) * (a.d * m.d) == a.d * (a.n * (b.n * m.d))) by (nonlinear_arith);
    assert((a.n * m.n) * (a.d * b.d) == a.d * (a.n * (m.n * b.d))) by (nonlinear_arith);
    assert(a.n * k == a.n * (b.n * m.d) - a.n * (m.n * b.d)) by (nonlinear_arith)
        requires
            k == b.n * m.d - m.n * b.d,
    ;
    assert(a.d * (a.n * (b.n * m.d)) - a.d * (a.n * (m.n * b.d)) == a.d * (a.n * k)) by (nonlinear_arith)
        requires
            a.n * k == a.n * (b.n * m.d) - a.n * (m.n * b.d),
    ;
    assert(r.n == (a.n * b.n) * (a.d * m.d) - (a.n * m.n) * (a.d * b.d)) by (nonlinear_arith)
        requires
            r.n == (a.n * b.n) * (a.d * m.d) + (-(a.n * m.n)) * (a.d * b.d),
    ;
    assert(r.n == a.d * l.n);
    assert(r.d == a.d * l.d) by (nonlinear_arith)
        requires
            r.d == (a.d * b.d) * (a.d * m.d),
            l.d == a.d * (b.d * m.d),
    ;
    assert(l.n * r.d == r.n * l.d) by (nonlinear_arith)
        requires
            r.n == a.d * l.n,
            r.d == a.d * l.d,
    ;
}

/// `(a + m) * b` equals `a * b + m * b`.
proof fn lemma_product_of_sum(a: Q, m: Q, b: Q)
    requires
        q_wf(a),
        q_wf(b),
        q_wf(m),
    ensures
        q_eq(q_mul(q_add(a, m), b), q_add(q_mul(a, b), q_mul(m, b))),
{
    lemma_q_add_mul(a, m, b);
    assert(q_eq(q_add(q_mul(a, b), q_mul(m, b)), q_mul(q_add(a, m), b)));
}

/// The weights `v` with column `p` multiplied by `s`.
pub open spec fn column_scaled(v: Seq<Seq<Q>>, p: int, s: Q) -> Seq<Seq<Q>> {
    Seq::new(v.len(), |r: int| v[r].update(p, q_mul(v[r][p], s)))
}

/// The weights `v` with `s` times column `i` added to column `p`.
pub open spec fn column_added(v: Seq<Seq<Q>>, p: int, i: int, s: Q) -> Seq<Seq<Q>> {
    Seq::new(v.len(), |r: int| v[r].update(p, q_add(v[r][p], q_mul(v[r][i], s))))
}

/// The weights `v` with columns `a` and `b` exchanged.
pub open spec fn columns_swapped(v: Seq<Seq<Q>>, a: int, b: int) -> Seq<Seq<Q>> {
    Seq::new(v.len(), |r: int| v[r].update(a, v[r][b]).update(b, v[r][a]))
}

/// `orig = v m0`, and row `p` of `m1` is that of `m0` divided by `piv`: then `orig` combines
/// the rows of `m1` with column `p` of the weights multiplied by `piv`.
proof fn lemma_restored_div(orig: BigMatrix, m0: BigMatrix, m1: BigMatrix, v: Seq<Seq<Q>>, n: int, p: int, piv: Q)
    requires
        m0.wf(),
        m1.wf(),
        transformed_by(m0, orig, v, n),
        n == m0.row_count,
        0 <= p < n,
        q_wf(piv),
        piv.n != 0,
        m1.row_count == m0.row_count,
        m1.column_count == m0.column_count,
        forall|r: int, c: int| 0 <= r < m0.row_count && 0 <= c < m0.column_count && r != p ==> #[trigger] m1.entry(r, c) == m0.entry(r, c),
        forall|c: int| 0 <= c < m0.column_count ==> q_eq(#[trigger] m1.entry(p, c), q_div(m0.entry(p, c), piv)),
    ensures
        transformed_by(m1, orig, column_scaled(v, p, piv), n),
{
    let v1 = column_scaled(v, p, piv);
    assert forall|r: int| 0 <= r < n implies (#[trigger] v1[r]).len() == n && seq_wf(v1[r]) by {
        assert forall|k: int| 0 <= k < v1[r].len() implies q_wf(#[trigger] v1[r][k]) by {
            lemma_q_ops_wf(v[r][p], piv);
        }
    }
    assert forall|r: int, c: int| 0 <= r < n && 0 <= c < orig.column_count implies q_eq(
        #[trigger] orig.entry(r, c),
        q_dot(v1[r], m1.column_values(c), n as nat),
    ) by {
        let a = v[r];
        let b = m0.column_values(c);
        let a2 = v1[r];
        let b2 = m1.column_values(c);
        lemma_column_wf(&m0, c);
        lemma_column_wf(&m1, c);
        assert(b[p] == m0.entry(p, c));
        assert(b2[p] == m1.entry(p, c));
        assert forall|k: int| 0 <= k < n && k != p implies a2[k] == a[k] && b2[k] == b[k] by {
            assert(m1.entry(k, c) == m0.entry(k, c));
        }
        lemma_q_ops_wf(a[p], piv);
        lemma_q_ops_wf(b[p], piv);
        let bd = q_div(b[p], piv);
        assert(q_eq(a2[p], a2[p]));
        lemma_q_mul_cong(a2[p], a2[p], b2[p], bd);
        lemma_scaled_product(a[p], piv, b[p]);
        lemma_q_ops_wf(a2[p], bd);
        lemma_q_ops_wf(a2[p], b2[p]);
        lemma_q_eq_trans(q_mul(a2[p], b2[p]), q_mul(a2[p], bd), q_add(q_mul(a[p], b[p]), q_int(0)));
        lemma_dot_one_changed(a, b, a2, b2, n as nat, p, q_int(0));
        let x = q_dot(a, b, n as nat);
        lemma_q_dot_wf(a, b, n as nat);
        lemma_add_zero(x, q_int(0));
        lemma_q_ops_wf(x, q_int(0));
        lemma_q_eq_trans(q_dot(a2, b2, n as nat), q_add(x, q_int(0)), x);
        lemma_q_eq_trans(orig.entry(r, c), x, q_dot(a2, b2, n as nat));
    }
}

/// `orig = v m0`, and row `i` of `m1` is that of `m0` less `s` times row `p`: then `orig`
/// combines the rows of `m1` with `s` times column `i` of the weights added to column `p`.
proof fn lemma_restored_elim(
    orig: BigMatrix,
    m0: BigMatrix,
    m1: BigMatrix,
    v: Seq<Seq<Q>>,
    n: int,
    p: int,
    i: int,
    s: Q,
    sv: Seq<Q>,
)
    requires
        m0.wf(),
        m1.wf(),
        transformed_by(m0, orig, v, n),
        n == m0.row_count,
        0 <= p < n,
        0 <= i < n,
        i != p,
        q_wf(s),
        seq_wf(sv),
        sv.len() >= m0.column_count,
        m1.row_count == m0.row_count,
        m1.column_count == m0.column_count,
        forall|r: int, c: int| 0 <= r < m0.row_count && 0 <= c < m0.column_count && r != i ==> #[trigger] m1.entry(r, c) == m0.entry(r, c),
        forall|c: int| 0 <= c < m0.column_count ==> q_eq(#[trigger] sv[c], q_mul(m0.entry(p, c), s)),
        forall|c: int| 0 <= c < m0.column_count ==> q_eq(#[trigger] m1.entry(i, c), q_sub(m0.entry(i, c), sv[c])),
    ensures
        transformed_by(m1, orig, column_added(v, p, i, s), n),
{
    let v1 = column_added(v, p, i, s);
    assert forall|r: int| 0 <= r < n implies (#[trigger] v1[r]).len() == n && seq_wf(v1[r]) by {
        assert forall|k: int| 0 <= k < v1[r].len() implies q_wf(#[trigger] v1[r][k]) by {
            lemma_q_ops_wf(v[r][i], s);
            lemma_q_ops_wf(v[r][p], q_mul(v[r][i], s));
        }
    }
    assert forall|r: int, c: int| 0 <= r < n && 0 <= c < orig.column_count implies q_eq(
        #[trigger] orig.entry(r, c),
        q_dot(v1[r], m1.column_values(c), n as nat),
    ) by {
        let a = v[r];
        let b = m0.column_values(c);
        let a2 = v1[r];
        let b2 = m1.column_values(c);
        lemma_column_wf(&m0, c);
        lemma_column_wf(&m1, c);
        assert(b[p] == m0.entry(p, c) && b[i] == m0.entry(i, c));
        assert(b2[p] == m1.entry(p, c) && b2[i] == m1.entry(i, c));
        assert(b2[p] == b[p]);
        assert forall|k: int| 0 <= k < n && k != i implies b2[k] == b[k] by {
            assert(m1.entry(k, c) == m0.entry(k, c));
        }
        // the change at row i of the column
        let m = sv[c];
        let t1 = q_neg(q_mul(a[i], m));
        lemma_q_ops_wf(b[i], m);
        assert(q_eq(a[i], a[i]));
        lemma_q_mul_cong(a[i], a[i], b2[i], q_sub(b[i], m));
        lemma_product_of_difference(a[i], b[i], m);
        lemma_q_ops_wf(a[i], q_sub(b[i], m));
        lemma_q_ops_wf(a[i], b2[i]);
        lemma_q_eq_trans(q_mul(a[i], b2[i]), q_mul(a[i], q_sub(b[i], m)), q_add(q_mul(a[i], b[i]), t1));
        lemma_q_ops_wf(a[i], m);
        lemma_q_ops_wf(q_mul(a[i], m), q_mul(a[i], m));
        lemma_dot_one_changed(a, b, a, b2, n as nat, i, t1);
        // the change at entry p of the weights
        let t2 = q_mul(q_mul(a[i], s), b[p]);
        lemma_q_ops_wf(a[i], s);
        lemma_q_ops_wf(q_mul(a[i], s), b[p]);
        lemma_q_ops_wf(a[p], q_mul(a[i], s));
        lemma_q_ops_wf(a2[p], b2[p]);
        lemma_product_of_sum(a[p], q_mul(a[i], s), b[p]);
        assert forall|k: int| 0 <= k < n && k != p implies a2[k] == a[k] && b2[k] == b2[k] by {}
        lemma_dot_one_changed(a, b2, a2, b2, n as nat, p, t2);
        // the two changes cancel
        let x = q_dot(a, b, n as nat);
        let y = q_dot(a, b2, n as nat);
        let z = q_dot(a2, b2, n as nat);
        lemma_q_dot_wf(a, b, n as nat);
        lemma_q_ops_wf(x, t1);
        assert(q_eq(t2, t2));
        lemma_q_add_cong(y, q_add(x, t1), t2, t2);
        lemma_q_ops_wf(q_add(x, t1), t2);
        let mm = q_mul(a[i], m);
        let pr = q_mul(m0.entry(p, c), s);
        lemma_entry_wf(&m0, p, c);
        lemma_q_ops_wf(m0.entry(p, c), s);
        assert(q_eq(a[i], a[i]));
        lemma_q_mul_cong(a[i], a[i], m, pr);
        let alt = q_mul(a[i], pr);
        assert(alt.n == t2.n) by (nonlinear_arith)
            requires
                alt.n == a[i].n * (m0.entry(p, c).n * s.n),
                t2.n == (a[i].n * s.n) * m0.entry(p, c).n,
        ;
        assert(alt.d == t2.d) by (nonlinear_arith)
            requires
                alt.d == a[i].d * (m0.entry(p, c).d * s.d),
                t2.d == (a[i].d * s.d) * m0.entry(p, c).d,
        ;
        assert(mm.n * t2.d == t2.n * mm.d);
        assert(t1.n * t2.d + t2.n * t1.d == 0) by (nonlinear_arith)
            requires
                t1.n == -mm.n,
                t1.d == mm.d,
                mm.n * t2.d == t2.n * mm.d,
        ;
        lemma_add_cancels(x, t1, t2);
        lemma_q_dot_wf(a, b2, n as nat);
        lemma_q_ops_wf(y, t2);
        lemma_q_eq_trans(z, q_add(y, t2), q_add(q_add(x, t1), t2));
        lemma_q_eq_trans(z, q_add(q_add(x, t1), t2), x);
        lemma_q_eq_trans(orig.entry(r, c), x, z);
    }
}

/// `orig = v m0`, and `m1` is `m0` with rows `a` and `b` exchanged: then `orig` combines the
/// rows of `m1` with columns `a` and `b` of the weights exchanged.
proof fn lemma_restored_swap(orig: BigMatrix, m0: BigMatrix, m1: BigMatrix, v: Seq<Seq<Q>>, n: int, a: int, b: int)
    requires
        m0.wf(),
        m1.wf(),
        transformed_by(m0, orig, v, n),
        n == m0.row_count,
        0 <= a < n,
        0 <= b < n,
        m1.row_count == m0.row_count,
        m1.column_count == m0.column_count,
        forall|r: int, c: int|
            0 <= r < m0.row_count && 0 <= c < m0.column_count ==> #[trigger] m1.entry(r, c) == m0.entry(
                if r == a {
                    b
                } else if r == b {
                    a
                } else {
                    r
                },
                c,
            ),
    ensures
        transformed_by(m1, orig, columns_swapped(v, a, b), n),
{
    let v1 = columns_swapped(v, a, b);
    assert forall|r: int| 0 <= r < n implies (#[trigger] v1[r]).len() == n && seq_wf(v1[r]) by {
        assert forall|k: int| 0 <= k < v1[r].len() implies q_wf(#[trigger] v1[r][k]) by {}
    }
    assert forall|r: int, c: int| 0 <= r < n && 0 <= c < orig.column_count implies q_eq(
        #[trigger] orig.entry(r, c),
        q_dot(v1[r], m1.column_values(c), n as nat),
    ) by {
        let x = v[r];
        let col = m0.column_values(c);
        let col1 = m1.column_values(c);
        lemma_column_wf(&m0, c);
        lemma_column_wf(&m1, c);
        assert forall|k: int| 0 <= k < n implies #[trigger] col1[k] == col[if k == a {
            b
        } else if k == b {
            a
        } else {
            k
        }] by {
            assert(m1.entry(k, c) == col1[k]);
        }
        let d = q_dot(x, col, n as nat);
        lemma_q_dot_wf(x, col, n as nat);
        if a == b {
            lemma_dot_same_prefix(x, col, v1[r], col1, n as nat);
            assert(q_dot(v1[r], col1, n as nat) == d);
        } else {
            let x1 = x.update(a, x[b]);
            let c1 = col.update(a, col[b]);
            let pa = q_mul(x[a], col[a]);
            let pb = q_mul(x[b], col[b]);
            lemma_q_ops_wf(x[a], col[a]);
            lemma_q_ops_wf(x[b], col[b]);
            let t = q_sub(pb, pa);
            let u = q_sub(pa, pb);
            lemma_q_ops_wf(pb, pa);
            lemma_q_ops_wf(pa, pb);
            lemma_add_difference(pb, pa);
            lemma_dot_one_changed(x, col, x1, c1, n as nat, a, t);
            assert(seq_wf(x1) && seq_wf(c1));
            assert(v1[r] == x1.update(b, x[a]));
            assert forall|k: int| 0 <= k < n && k != b implies v1[r][k] == x1[k] && col1[k] == c1[k] by {}
            lemma_add_difference(pa, pb);
            lemma_dot_one_changed(x1, c1, v1[r], col1, n as nat, b, u);
            assert(t.n * u.d + u.n * t.d == 0) by (nonlinear_arith)
                requires
                    t.n == pb.n * pa.d - pa.n * pb.d,
                    u.n == pa.n * pb.d - pb.n * pa.d,
                    t.d == pb.d * pa.d,
                    u.d == pa.d * pb.d,
            ;
            let d1 = q_dot(x1, c1, n as nat);
            let z = q_dot(v1[r], col1, n as nat);
            lemma_q_ops_wf(d, t);
            assert(q_eq(u, u));
            lemma_q_add_cong(d1, q_add(d, t), u, u);
            lemma_q_ops_wf(q_add(d, t), u);
            lemma_q_dot_wf(x1, c1, n as nat);
            lemma_q_ops_wf(d1, u);
            lemma_q_eq_trans(z, q_add(d1, u), q_add(q_add(d, t), u));
            lemma_add_cancels(d, t, u);
            lemma_q_eq_trans(z, q_add(q_add(d, t), u), d);
            lemma_q_eq_trans(orig.entry(r, c), d, z);
        }
    }
}

/// The identity weights give every matrix back.
proof fn lemma_transformed_identity(m: BigMatrix, n: int)
    requires
        m.wf(),
        0 <= n,
        n <= m.row_count || m.column_count == 0,
    ensures
        transformed_by(m, m, identity_q(n as nat), n),
{
    assert forall|r: int| 0 <= r < n implies (#[trigger] identity_q(n as nat)[r]).len() == n && seq_wf(identity_q(n as nat)[r]) by {}
    assert forall|r: int, c: int| 0 <= r < n && 0 <= c < m.column_count implies q_eq(
        #[trigger] m.entry(r, c),
        q_dot(identity_q(n as nat)[r], m.column_values(c), n as nat),
    ) by {
        lemma_column_wf(&m, c);
        lemma_dot_unit(m.column_values(c), n as nat, r, n as nat);
        lemma_entry_wf(&m, r, c);
        assert(m.column_values(c)[r] == m.entry(r, c));
    }
}

/// Column `col` of `m` is the unit vector with its one at row `row`.
pub open spec fn unit_column(m: &BigMatrix, col: int, row: int) -> bool {
    &&& q_is_one(m.entry(row, col))
    &&& forall|i: int| 0 <= i < m.row_count && i != row ==> q_is_zero(#[trigger] m.entry(i, col))
}

/// The pivot rows recorded for the first `upto` columns are the rows `0..row`, each pivot
/// column being the unit vector of its row; columns from `upto` on have none yet (`-1`).
pub open spec fn pivots_ok(m: &BigMatrix, pr: Seq<i32>, upto: int, row: int) -> bool {
    &&& pr.len() == m.column_count
    &&& forall|c: int| upto <= c < pr.len() ==> #[trigger] pr[c] == -1
    &&& forall|c: int|
        0 <= c < upto && #[trigger] pr[c] != -1 ==> 0 <= pr[c] < row && unit_column(m, c, pr[c] as int)
}

/// Every matrix of `others` is well formed, with at least `rows` rows where it has columns.
pub open spec fn others_ok(others: Seq<BigMatrix>, rows: int) -> bool {
    forall|k: int|
        0 <= k < others.len() ==> (#[trigger] others[k]).wf() && (others[k].column_count == 0
            || others[k].row_count >= rows)
}

/// Column `c` of `b` is zero in the rows where column `c` of `a` is.
pub open spec fn column_zeros_kept(a: &BigMatrix, b: &BigMatrix, c: int) -> bool {
    forall|i: int| 0 <= i < a.row_count ==> q_is_zero(#[trigger] b.entry(i, c)) == q_is_zero(a.entry(i, c))
}

/// A column without a pivot has nonzero entries only in rows whose pivot lies in an earlier
/// column (reduced row echelon form).
pub open spec fn free_column_ok(m: &BigMatrix, pr: Seq<i32>, c: int) -> bool {
    forall|i: int|
        0 <= i < m.row_count && !q_is_zero(#[trigger] m.entry(i, c)) ==> exists|c2: int|
            0 <= c2 < c && #[trigger] pr[c2] == i
}

/// `action` answers `true` for column `c` whatever pivot rows it is shown, so column `c` is
/// never skipped.
pub open spec fn action_takes<T: Fn(usize, &Vec<i32>) -> bool>(action: T, c: usize) -> bool {
    forall|v: &Vec<i32>, b: bool| #[trigger] call_ensures(action, (c, v), b) ==> b
}

/// `action` answers `false` for column `c` whatever pivot rows it is shown, so column `c` is
/// always skipped.
pub open spec fn action_skips<T: Fn(usize, &Vec<i32>) -> bool>(action: T, c: usize) -> bool {
    forall|v: &Vec<i32>, b: bool| #[trigger] call_ensures(action, (c, v), b) ==> !b
}

/// Column `c` is the first one, or one that `action` never skips.
pub open spec fn column_examined<T: Fn(usize, &Vec<i32>) -> bool>(action: T, c: int) -> bool {
    c == 0 || action_takes(action, c as usize)
}

/// The matrices of `b` have the shapes of those of `a`.
pub open spec fn same_shapes(a: Seq<BigMatrix>, b: Seq<BigMatrix>) -> bool {
    &&& a.len() == b.len()
    &&& forall|k: int|
        0 <= k < a.len() ==> (#[trigger] b[k]).row_count == a[k].row_count && b[k].column_count
            == a[k].column_count
}

/// The matrices of `bases` are well formed, with at least `n` rows where they have columns.
pub open spec fn bases_ok(bases: Seq<BigMatrix>, n: int) -> bool {
    forall|k: int| 0 <= k < bases.len() ==> (#[trigger] bases[k]).wf() && (n <= bases[k].row_count || bases[k].column_count == 0)
}

fn others_div_row(
    others: &mut Vec<BigMatrix>,
    row: usize,
    r: &BigRational,
    rows: Ghost<int>,
    bases: Ghost<Seq<BigMatrix>>,
    w: Ghost<Seq<Seq<Q>>>,
)
    requires
        others_ok(old(others)@, rows@),
        row < rows@,
        wf_rat(*r),
        r@.n != 0,
        bases_ok(bases@, rows@),
        all_transformed_by(bases@, old(others)@, w@, rows@),
    ensures
        others_ok(final(others)@, rows@),
        same_shapes(old(others)@, final(others)@),
        all_transformed_by(bases@, final(others)@, w@.update(row as int, scaled(w@[row as int], q_div(q_int(1), r@))), rows@),
{
    let ghost w1 = w@.update(row as int, scaled(w@[row as int], q_div(q_int(1), r@)));
    let mut k: usize = 0;
    while k < others.len()
        invariant
            others_ok(others@, rows@),
            row < rows@,
            wf_rat(*r),
            r@.n != 0,
            k <= others.len(),
            same_shapes(old(others)@, others@),
            bases_ok(bases@, rows@),
            bases@.len() == others.len(),
            w1 == w@.update(row as int, scaled(w@[row as int], q_div(q_int(1), r@))),
            forall|j: int| 0 <= j < k ==> #[trigger] transformed_by(bases@[j], others@[j], w1, rows@),
            forall|j: int| k <= j < others.len() ==> #[trigger] others@[j] == old(others)@[j],
            all_transformed_by(bases@, old(others)@, w@, rows@),
        decreases others.len() - k,
    {
        let ghost m0 = others@[k as int];
        if others[k].column_count > 0 {
            others[k].row_div_assign(row, r);
        }
        proof {
            assert(transformed_by(bases@[k as int], m0, w@, rows@));
            lemma_transformed_div(bases@[k as int], m0, others@[k as int], w@, rows@, row as int, r@);
        }
        k = k + 1;
    }
}

fn others_eliminate_row(
    others: &mut Vec<BigMatrix>,
    pivot_row: usize,
    i: usize,
    scale: &BigRational,
    rows: Ghost<int>,
    bases: Ghost<Seq<BigMatrix>>,
    w: Ghost<Seq<Seq<Q>>>,
)
    requires
        others_ok(old(others)@, rows@),
        pivot_row < rows@,
        i < rows@,
        i != pivot_row,
        wf_rat(*scale),
        bases_ok(bases@, rows@),
        all_transformed_by(bases@, old(others)@, w@, rows@),
    ensures
        others_ok(final(others)@, rows@),
        same_shapes(old(others)@, final(others)@),
        all_transformed_by(bases@, final(others)@, w@.update(i as int, sub_scaled(w@[i as int], w@[pivot_row as int], scale@)), rows@),
{
    let ghost w1 = w@.update(i as int, sub_scaled(w@[i as int], w@[pivot_row as int], scale@));
    let mut k: usize = 0;
    while k < others.len()
        invariant
            others_ok(others@, rows@),
            pivot_row < rows@,
            i < rows@,
            i != pivot_row,
            wf_rat(*scale),
            k <= others.len(),
            same_shapes(old(others)@, others@),
            bases_ok(bases@, rows@),
            bases@.len() == others.len(),
            w1 == w@.update(i as int, sub_scaled(w@[i as int], w@[pivot_row as int], scale@)),
            forall|j: int| 0 <= j < k ==> #[trigger] transformed_by(bases@[j], others@[j], w1, rows@),
            forall|j: int| k <= j < others.len() ==> #[trigger] others@[j] == old(others)@[j],
            all_transformed_by(bases@, old(others)@, w@, rows@),
        decreases others.len() - k,
    {
        let ghost m0 = others@[k as int];
        let ghost sv: Seq<Q> = Seq::empty();
        if others[k].column_count > 0 {
            let scaled_row = vec_scale(&others[k].get_row(pivot_row), scale);
            others[k].row_sub_assign(i, &scaled_row);
            proof {
                sv = scaled_row.values();
                scaled_row.lemma_values_wf();
            }
        }
        proof {
            assert(transformed_by(bases@[k as int], m0, w@, rows@));
            lemma_transformed_elim(bases@[k as int], m0, others@[k as int], w@, rows@, pivot_row as int, i as int, scale@, sv);
        }
        k = k + 1;
    }
}

fn others_swap_rows(
    others: &mut Vec<BigMatrix>,
    row1: usize,
    row2: usize,
    rows: Ghost<int>,
    bases: Ghost<Seq<BigMatrix>>,
    w: Ghost<Seq<Seq<Q>>>,
)
    requires
        others_ok(old(others)@, rows@),
        row1 < rows@,
        row2 < rows@,
        bases_ok(bases@, rows@),
        all_transformed_by(bases@, old(others)@, w@, rows@),
    ensures
        others_ok(final(others)@, rows@),
        same_shapes(old(others)@, final(others)@),
        all_transformed_by(
            bases@,
            final(others)@,
            w@.update(row1 as int, w@[row2 as int]).update(row2 as int, w@[row1 as int]),
            rows@,
        ),
{
    let ghost w1 = w@.update(row1 as int, w@[row2 as int]).update(row2 as int, w@[row1 as int]);
    let mut k: usize = 0;
    while k < others.len()
        invariant
            others_ok(others@, rows@),
            row1 < rows@,
            row2 < rows@,
            k <= others.len(),
            same_shapes(old(others)@, others@),
            bases_ok(bases@, rows@),
            bases@.len() == others.len(),
            w1 == w@.update(row1 as int, w@[row2 as int]).update(row2 as int, w@[row1 as int]),
            forall|j: int| 0 <= j < k ==> #[trigger] transformed_by(bases@[j], others@[j], w1, rows@),
            forall|j: int| k <= j < others.len() ==> #[trigger] others@[j] == old(others)@[j],
            all_transformed_by(bases@, old(others)@, w@, rows@),
        decreases others.len() - k,
    {
        let ghost m0 = others@[k as int];
        others[k].swap_rows(row1, row2);
        proof {
            assert(transformed_by(bases@[k as int], m0, w@, rows@));
            lemma_transformed_swap(bases@[k as int], m0, others@[k as int], w@, rows@, row1 as int, row2 as int);
        }
        k = k + 1;
    }
}

/// Makes column `pivot_column` the unit vector of row `row`, from the nonzero entry at
/// `pivot_row`: divides that row by its entry, clears the column in every other row, and
/// swaps the row into place; `others` receive the same row operations.
fn place_pivot(
    matrix: &mut BigMatrix,
    others: &mut Vec<BigMatrix>,
    row: usize,
    pivot_row: usize,
    pivot_column: usize,
    pr: Ghost<Seq<i32>>,
    base: Ghost<BigMatrix>,
    bases: Ghost<Seq<BigMatrix>>,
    w: Ghost<Seq<Seq<Q>>>,
    v: Ghost<Seq<Seq<Q>>>,
) -> (out: (Ghost<Seq<Seq<Q>>>, Ghost<Seq<Seq<Q>>>))
    requires
        old(matrix).wf(),
        base@.wf(),
        base@.row_count == old(matrix).row_count,
        transformed_by(base@, *old(matrix), w@, old(matrix).row_count as int),
        transformed_by(*old(matrix), base@, v@, old(matrix).row_count as int),
        bases_ok(bases@, old(matrix).row_count as int),
        all_transformed_by(bases@, old(others)@, w@, old(matrix).row_count as int),
        others_ok(old(others)@, old(matrix).row_count as int),
        row <= pivot_row < old(matrix).row_count,
        pivot_column < old(matrix).column_count,
        old(matrix).entry(pivot_row as int, pivot_column as int).n != 0,
        pivots_ok(old(matrix), pr@, pivot_column as int, row as int),
    ensures
        final(matrix).wf(),
        final(matrix).row_count == old(matrix).row_count,
        final(matrix).column_count == old(matrix).column_count,
        others_ok(final(others)@, old(matrix).row_count as int),
        same_shapes(old(others)@, final(others)@),
        pivots_ok(final(matrix), pr@, pivot_column as int, row as int),
        unit_column(final(matrix), pivot_column as int, row as int),
        forall|c: int|
            0 <= c < old(matrix).column_count && q_is_zero(old(matrix).entry(pivot_row as int, c)) && q_is_zero(
                old(matrix).entry(row as int, c),
            ) ==> #[trigger] column_zeros_kept(old(matrix), final(matrix), c),
        transformed_by(base@, *final(matrix), out.0@, old(matrix).row_count as int),
        all_transformed_by(bases@, final(others)@, out.0@, old(matrix).row_count as int),
        transformed_by(*final(matrix), base@, out.1@, old(matrix).row_count as int),
{
    let ghost rows = matrix.row_count as int;
    let ghost pc = pivot_column as int;
    let ghost p = pivot_row as int;
    proof {
        lemma_mat_index(rows, matrix.column_count as int, p, pc);
    }
    let pivot = matrix.get(pivot_row, pivot_column).clone();
    let ghost m0 = *matrix;
    matrix.row_div_assign(pivot_row, &pivot);
    let ghost mut wc = w@;
    others_div_row(others, pivot_row, &pivot, Ghost(rows), bases, Ghost(wc));
    let ghost mut vc = v@;
    proof {
        lemma_transformed_div(base@, m0, *matrix, wc, rows, p, pivot@);
        wc = wc.update(p, scaled(wc[p], q_div(q_int(1), pivot@)));
        lemma_restored_div(base@, m0, *matrix, vc, rows, p, pivot@);
        vc = column_scaled(vc, p, pivot@);
    }
    proof {
        // the pivot entry is now one, and the row keeps zeros in earlier pivot columns
        lemma_q_div_facts(pivot@, pivot@);
        lemma_q_ops_wf(pivot@, pivot@);
        lemma_entry_wf(matrix, p, pc);
        lemma_q_eq_zero_one(matrix.entry(p, pc), q_div(pivot@, pivot@));
        assert forall|c: int| 0 <= c < pc && #[trigger] pr@[c] != -1 implies 0 <= pr@[c] < row
            && unit_column(matrix, c, pr@[c] as int) by {
            let r = pr@[c] as int;
            assert(unit_column(&m0, c, r));
            lemma_entry_wf(&m0, p, c);
            lemma_entry_wf(matrix, p, c);
            lemma_q_div_facts(m0.entry(p, c), pivot@);
            lemma_q_ops_wf(m0.entry(p, c), pivot@);
            lemma_q_eq_zero_one(matrix.entry(p, c), q_div(m0.entry(p, c), pivot@));
            assert forall|i: int| 0 <= i < matrix.row_count && i != r implies q_is_zero(
                #[trigger] matrix.entry(i, c),
            ) by {
                if i != p {
                    assert(matrix.entry(i, c) == m0.entry(i, c));
                }
            }
            assert(matrix.entry(r, c) == m0.entry(r, c));
        }
        assert forall|c: int|
            0 <= c < m0.column_count && q_is_zero(m0.entry(p, c)) && q_is_zero(m0.entry(row as int, c))
                implies #[trigger] column_zeros_kept(&m0, matrix, c) by {
            lemma_entry_wf(&m0, p, c);
            lemma_entry_wf(matrix, p, c);
            lemma_q_div_facts(m0.entry(p, c), pivot@);
            lemma_q_ops_wf(m0.entry(p, c), pivot@);
            lemma_q_eq_zero_one(matrix.entry(p, c), q_div(m0.entry(p, c), pivot@));
        }
    }
    let mut i: usize = 0;
    while i < matrix.row_count
        invariant
            matrix.wf(),
            matrix.row_count == rows,
            matrix.column_count == m0.column_count,
            m0.row_count == rows,
            others_ok(others@, rows),
            same_shapes(old(others)@, others@),
            row <= pivot_row < rows,
            pc < matrix.column_count,
            pc == pivot_column,
            p == pivot_row,
            i <= rows,
            pr@.len() == matrix.column_count,
            q_is_one(matrix.entry(p, pc)),
            forall|c: int|
                0 <= c < pc && #[trigger] pr@[c] != -1 ==> 0 <= pr@[c] < row && unit_column(
                    matrix,
                    c,
                    pr@[c] as int,
                ),
            forall|ii: int| 0 <= ii < i && ii != p ==> q_is_zero(#[trigger] matrix.entry(ii, pc)),
            base@.wf(),
            base@.row_count == rows,
            transformed_by(base@, *matrix, wc, rows),
            transformed_by(*matrix, base@, vc, rows),
            bases_ok(bases@, rows),
            all_transformed_by(bases@, others@, wc, rows),
            forall|c: int|
                0 <= c < m0.column_count && q_is_zero(m0.entry(p, c)) && q_is_zero(m0.entry(row as int, c))
                    ==> #[trigger] column_zeros_kept(&m0, matrix, c),
        decreases rows - i,
    {
        if i != pivot_row {
            proof {
                lemma_mat_index(rows, matrix.column_count as int, i as int, pc);
            }
            let scale = matrix.get(i, pivot_column).clone();
            let ghost m1 = *matrix;
            let scaled_row = vec_scale(&matrix.get_row(pivot_row), &scale);
            matrix.row_sub_assign(i, &scaled_row);
            others_eliminate_row(others, pivot_row, i, &scale, Ghost(rows), bases, Ghost(wc));
            proof {
                scaled_row.lemma_values_wf();
                lemma_transformed_elim(base@, m1, *matrix, wc, rows, p, i as int, scale@, scaled_row.values());
                wc = wc.update(i as int, sub_scaled(wc[i as int], wc[p], scale@));
                lemma_restored_elim(base@, m1, *matrix, vc, rows, p, i as int, scale@, scaled_row.values());
                vc = column_added(vc, p, i as int, scale@);
            }
            proof {
                let ii = i as int;
                assert forall|c: int| 0 <= c < matrix.column_count implies (q_is_zero(m1.entry(p, c))
                    ==> q_is_zero(#[trigger] matrix.entry(ii, c)) == q_is_zero(m1.entry(ii, c))
                    && q_is_one(matrix.entry(ii, c)) == q_is_one(m1.entry(ii, c))) && (c == pc
                    ==> q_is_zero(matrix.entry(ii, c))) by {
                    lemma_row_update(&m1, matrix, &scaled_row, scale@, ii, p, c);
                }
                assert(q_is_zero(matrix.entry(ii, pc)));
                assert forall|c: int| 0 <= c < pc && #[trigger] pr@[c] != -1 implies 0 <= pr@[c]
                    < row && unit_column(matrix, c, pr@[c] as int) by {
                    let r = pr@[c] as int;
                    assert(unit_column(&m1, c, r));
                    assert(q_is_zero(m1.entry(p, c)));
                    assert(q_is_zero(matrix.entry(ii, c)) == q_is_zero(m1.entry(ii, c)));
                    assert(q_is_one(matrix.entry(ii, c)) == q_is_one(m1.entry(ii, c)));
                    assert forall|j: int| 0 <= j < matrix.row_count && j != r implies q_is_zero(
                        #[trigger] matrix.entry(j, c),
                    ) by {
                        if j != ii {
                            assert(matrix.entry(j, c) == m1.entry(j, c));
                        }
                    }
                    if r != ii {
                        assert(matrix.entry(r, c) == m1.entry(r, c));
                    }
                }
                assert forall|j: int| 0 <= j < i + 1 && j != p implies q_is_zero(
                    #[trigger] matrix.entry(j, pc),
                ) by {
                    if j != ii {
                        assert(matrix.entry(j, pc) == m1.entry(j, pc));
                    }
                }
                assert(matrix.entry(p, pc) == m1.entry(p, pc));
                assert forall|c: int|
                    0 <= c < m0.column_count && q_is_zero(m0.entry(p, c)) && q_is_zero(m0.entry(row as int, c))
                        implies #[trigger] column_zeros_kept(&m0, matrix, c) by {
                    assert(column_zeros_kept(&m0, &m1, c));
                    assert(q_is_zero(m1.entry(p, c)));
                    assert(q_is_zero(matrix.entry(ii, c)) == q_is_zero(m1.entry(ii, c)));
                    assert forall|j: int| 0 <= j < m0.row_count implies q_is_zero(#[trigger] matrix.entry(j, c))
                        == q_is_zero(m0.entry(j, c)) by {
                        if j != ii {
                            assert(matrix.entry(j, c) == m1.entry(j, c));
                        }
                        assert(q_is_zero(m1.entry(j, c)) == q_is_zero(m0.entry(j, c)));
                    }
                }
            }
        }
        i = i + 1;
    }
    let ghost m2 = *matrix;
    matrix.swap_rows(row, pivot_row);
    others_swap_rows(others, row, pivot_row, Ghost(rows), bases, Ghost(wc));
    proof {
        lemma_transformed_swap(base@, m2, *matrix, wc, rows, row as int, p);
        wc = wc.update(row as int, wc[p]).update(p, wc[row as int]);
        lemma_restored_swap(base@, m2, *matrix, vc, rows, row as int, p);
        vc = columns_swapped(vc, row as int, p);
    }
    proof {
        let rr = row as int;
        assert forall|c: int| 0 <= c < pc && #[trigger] pr@[c] != -1 implies 0 <= pr@[c] < row
            && unit_column(matrix, c, pr@[c] as int) by {
            let r = pr@[c] as int;
            assert(unit_column(&m2, c, r));
            lemma_mat_index(rows, matrix.column_count as int, r, c);
            assert(matrix.entry(r, c) == m2.entry(r, c));
            assert forall|j: int| 0 <= j < matrix.row_count && j != r implies q_is_zero(
                #[trigger] matrix.entry(j, c),
            ) by {
                lemma_mat_index(rows, matrix.column_count as int, j, c);
            }
        }
        lemma_mat_index(rows, matrix.column_count as int, rr, pc);
        assert(matrix.entry(rr, pc) == m2.entry(p, pc));
        assert forall|j: int| 0 <= j < matrix.row_count && j != rr implies q_is_zero(
            #[trigger] matrix.entry(j, pc),
        ) by {
            lemma_mat_index(rows, matrix.column_count as int, j, pc);
        }
        assert forall|c: int|
            0 <= c < m0.column_count && q_is_zero(m0.entry(p, c)) && q_is_zero(m0.entry(rr, c))
                implies #[trigger] column_zeros_kept(&m0, matrix, c) by {
            assert(column_zeros_kept(&m0, &m2, c));
            assert(q_is_zero(m2.entry(p, c)) == q_is_zero(m0.entry(p, c)));
            assert(q_is_zero(m2.entry(rr, c)) == q_is_zero(m0.entry(rr, c)));
            assert forall|j: int| 0 <= j < m0.row_count implies q_is_zero(#[trigger] matrix.entry(j, c))
                == q_is_zero(m0.entry(j, c)) by {
                assert(q_is_zero(m2.entry(j, c)) == q_is_zero(m0.entry(j, c)));
            }
        }
    }
    (Ghost(wc), Ghost(vc))
}

/// After `row i -= row p * s`, an entry of row `i` keeps its being zero or one where row `p`
/// has a zero, and becomes zero where row `p` has a one and row `i` held `s`.
proof fn lemma_row_update(
    m1: &BigMatrix,
    m: &BigMatrix,
    scaled: &crate::math::component::big_vector::OwnedBigVector,
    s: Q,
    i: int,
    p: int,
    c: int,
)
    requires
        m1.wf(),
        m.wf(),
        m.row_count == m1.row_count,
        m.column_count == m1.column_count,
        0 <= i < m1.row_count,
        0 <= p < m1.row_count,
        0 <= c < m1.column_count,
        q_wf(s),
        scaled.wf_vec(),
        scaled.values().len() == m1.column_count,
        forall|cc: int| 0 <= cc < m1.column_count ==> q_eq(#[trigger] scaled.values()[cc], q_mul(m1.row_values(p)[cc], s)),
        forall|cc: int| 0 <= cc < m1.column_count ==> q_eq(#[trigger] m.entry(i, cc), q_sub(m1.entry(i, cc), scaled.values()[cc])),
    ensures
        q_is_zero(m1.entry(p, c)) ==> q_is_zero(m.entry(i, c)) == q_is_zero(m1.entry(i, c))
            && q_is_one(m.entry(i, c)) == q_is_one(m1.entry(i, c)),
        q_is_one(m1.entry(p, c)) && m1.entry(i, c) == s ==> q_is_zero(m.entry(i, c)),
{
    let x = m1.entry(i, c);
    let z = m1.entry(p, c);
    let y = scaled.values()[c];
    lemma_entry_wf(m1, i, c);
    lemma_entry_wf(m1, p, c);
    lemma_entry_wf(m, i, c);
    scaled.lemma_values_wf();
    assert(q_wf(y));
    assert(m1.row_values(p)[c] == z);
    assert(q_eq(y, q_mul(z, s)));
    assert(q_eq(m.entry(i, c), q_sub(x, y)));
    lemma_q_ops_wf(z, s);
    lemma_q_ops_wf(x, y);
    lemma_q_ops_wf(x, q_mul(z, s));
    lemma_q_sub_cong(x, x, y, q_mul(z, s));
    lemma_q_eq_trans(m.entry(i, c), q_sub(x, y), q_sub(x, q_mul(z, s)));
    if q_is_zero(z) {
        lemma_q_mul_zero(z, s);
        lemma_q_sub_zero(x, q_mul(z, s));
        lemma_q_eq_trans(m.entry(i, c), q_sub(x, q_mul(z, s)), x);
        lemma_q_eq_zero_one(m.entry(i, c), x);
    }
    if q_is_one(z) && x == s {
        lemma_q_sub_one_mul(s, z);
        lemma_q_eq_zero_one(m.entry(i, c), q_sub(x, q_mul(z, s)));
    }
}


/// Row `r` is the pivot row of some column.
pub open spec fn row_has_pivot(pr: Seq<i32>, r: int) -> bool {
    exists|c: int| 0 <= c < pr.len() && #[trigger] pr[c] == r
}

/// The recorded pivot rows grow from column to column, and rows `0..row` all have a column.
pub open spec fn pivot_rows_ordered(pr: Seq<i32>, row: int) -> bool {
    &&& forall|c1: int, c2: int|
        0 <= c1 < c2 < pr.len() && #[trigger] pr[c1] != -1 && #[trigger] pr[c2] != -1 ==> pr[c1] < pr[c2]
    &&& forall|r: int| 0 <= r < row ==> #[trigger] row_has_pivot(pr, r)
}

/// Gauss-Jordan elimination of `matrix`, column after column; after each column `action`
/// decides (from the next column and the pivot rows so far) whether that column is taken next
/// or skipped. Returns, for each column, the row of its pivot, or `-1`. Each examined column
/// without a pivot has nonzero entries only in rows whose pivot lies further left, so where no
/// column is skipped the result is in reduced row echelon form. `others` receive the same row
/// operations: one set of weights combines the old rows into the new ones, for `matrix` and
/// every matrix of `others` alike (see [transformed_by]), and the old rows of `matrix` are in
/// turn combinations of its new ones, so its row space is kept. A column that `action` always
/// skips keeps `-1`.
pub fn reduce<T: Fn(usize, &Vec<i32>) -> bool>(
    matrix: &mut BigMatrix,
    others: &mut Vec<BigMatrix>,
    action: T,
) -> (pivot_rows: Vec<i32>)
    requires
        old(matrix).wf(),
        old(matrix).row_count <= i32::MAX,
        others_ok(old(others)@, old(matrix).row_count as int),
        forall|c: usize, v: &Vec<i32>| call_requires(action, (c, v)),
    ensures
        final(matrix).wf(),
        final(matrix).row_count == old(matrix).row_count,
        final(matrix).column_count == old(matrix).column_count,
        others_ok(final(others)@, old(matrix).row_count as int),
        same_shapes(old(others)@, final(others)@),
        exists|row: int|
            0 <= row <= old(matrix).row_count && pivots_ok(final(matrix), pivot_rows@, old(matrix).column_count as int, row)
                && pivot_rows_ordered(pivot_rows@, row),
        forall|c: int|
            0 <= c < old(matrix).column_count && #[trigger] pivot_rows@[c] == -1 && column_examined(action, c)
                ==> free_column_ok(final(matrix), pivot_rows@, c),
        forall|c: int| 0 < c < old(matrix).column_count && action_skips(action, c as usize) ==> #[trigger] pivot_rows@[c] == -1,
        exists|v: Seq<Seq<Q>>| #[trigger] transformed_by(*final(matrix), *old(matrix), v, old(matrix).row_count as int),
        exists|w: Seq<Seq<Q>>|
            #[trigger] transformed_by(*old(matrix), *final(matrix), w, old(matrix).row_count as int) && all_transformed_by(
                old(others)@,
                final(others)@,
                w,
                old(matrix).row_count as int,
            ),
{
    let ghost m0 = *matrix;
    let ghost o0 = others@;
    let ghost mut w = identity_q(matrix.row_count as nat);
    let ghost mut v = identity_q(matrix.row_count as nat);
    proof {
        lemma_transformed_identity(m0, m0.row_count as int);
        assert forall|k: int| 0 <= k < o0.len() implies #[trigger] transformed_by(o0[k], others@[k], w, m0.row_count as int) by {
            lemma_transformed_identity(o0[k], m0.row_count as int);
        }
    }
    let rows = matrix.row_count;
    let cols = matrix.column_count;
    let mut pivot_rows: Vec<i32> = Vec::with_capacity(cols);
    let mut k: usize = 0;
    while k < cols
        invariant
            k <= cols,
            pivot_rows.len() == k,
            forall|c: int| 0 <= c < k ==> #[trigger] pivot_rows@[c] == -1,
        decreases cols - k,
    {
        pivot_rows.push(-1);
        k = k + 1;
    }

    let mut row: usize = 0;
    let mut pivot_column: usize = 0;

    while row < rows && pivot_column < cols
        invariant
            matrix.wf(),
            matrix.row_count == rows,
            matrix.column_count == cols,
            rows <= i32::MAX,
            others_ok(others@, rows as int),
            same_shapes(old(others)@, others@),
            forall|c: usize, v: &Vec<i32>| call_requires(action, (c, v)),
            row <= rows,
            pivot_column <= cols,
            pivots_ok(matrix, pivot_rows@, pivot_column as int, row as int),
            pivot_rows_ordered(pivot_rows@, row as int),
            forall|c: int| 0 <= c < pivot_column && #[trigger] pivot_rows@[c] != -1 ==> pivot_rows@[c] < row,
            forall|c: int|
                0 <= c < pivot_column && #[trigger] pivot_rows@[c] == -1 && column_examined(action, c)
                    ==> free_column_ok(matrix, pivot_rows@, c),
            m0.wf(),
            m0.row_count == rows,
            transformed_by(m0, *matrix, w, rows as int),
            transformed_by(*matrix, m0, v, rows as int),
            bases_ok(o0, rows as int),
            all_transformed_by(o0, others@, w, rows as int),
            forall|c: int| 0 < c < cols && action_skips(action, c as usize) ==> #[trigger] pivot_rows@[c] == -1,
            0 < pivot_column < cols ==> !action_skips(action, pivot_column),
        decreases cols - pivot_column,
    {
        let mut pivot_row = row;
        while pivot_row < rows
            invariant_except_break
                matrix.wf(),
                matrix.row_count == rows,
                matrix.column_count == cols,
                row <= pivot_row <= rows,
                pivot_column < cols,
                forall|i: int| row <= i < pivot_row ==> q_is_zero(#[trigger] matrix.entry(i, pivot_column as int)),
                transformed_by(m0, *matrix, w, rows as int),
                transformed_by(*matrix, m0, v, rows as int),
                all_transformed_by(o0, others@, w, rows as int),
            ensures
                row <= pivot_row <= rows,
                pivot_row < rows ==> matrix.entry(pivot_row as int, pivot_column as int).n != 0,
                forall|i: int| row <= i < pivot_row ==> q_is_zero(#[trigger] matrix.entry(i, pivot_column as int)),
                transformed_by(m0, *matrix, w, rows as int),
                transformed_by(*matrix, m0, v, rows as int),
                all_transformed_by(o0, others@, w, rows as int),
            decreases rows - pivot_row,
        {
            proof {
                lemma_mat_index(rows as int, cols as int, pivot_row as int, pivot_column as int);
            }
            if !matrix.get(pivot_row, pivot_column).is_zero() {
                break;
            }
            pivot_row = pivot_row + 1;
        }

        if pivot_row < rows {
            let ghost pr = pivot_rows@;
            let ghost mb = *matrix;
            let gw = place_pivot(matrix, others, row, pivot_row, pivot_column, Ghost(pivot_rows@), Ghost(m0), Ghost(o0), Ghost(w), Ghost(v));
            proof {
                w = gw.0@;
                v = gw.1@;
            }
            pivot_rows[pivot_column] = row as i32;
            proof {
                let pc = pivot_column as int;
                assert forall|c: int| 0 <= c < pc + 1 && #[trigger] pivot_rows@[c] == -1 && column_examined(action, c) implies free_column_ok(
                    matrix,
                    pivot_rows@,
                    c,
                ) by {
                    assert(pr[c] == -1);
                    assert(free_column_ok(&mb, pr, c));
                    if !q_is_zero(mb.entry(pivot_row as int, c)) {
                        let c2 = choose|c2: int| 0 <= c2 < c && #[trigger] pr[c2] == pivot_row;
                        assert(pr[c2] != -1);
                    }
                    if !q_is_zero(mb.entry(row as int, c)) {
                        let c2 = choose|c2: int| 0 <= c2 < c && #[trigger] pr[c2] == row;
                        assert(pr[c2] != -1);
                    }
                    assert(column_zeros_kept(&mb, matrix, c));
                    assert forall|i: int| 0 <= i < matrix.row_count && !q_is_zero(#[trigger] matrix.entry(i, c))
                        implies exists|c2: int| 0 <= c2 < c && #[trigger] pivot_rows@[c2] == i by {
                        assert(!q_is_zero(mb.entry(i, c)));
                        let c2 = choose|c2: int| 0 <= c2 < c && #[trigger] pr[c2] == i;
                        assert(pivot_rows@[c2] == i);
                    }
                }
                assert(pivot_rows@ == pr.update(pc, row as i32));
                assert forall|c: int|
                    0 <= c < pc + 1 && #[trigger] pivot_rows@[c] != -1 implies 0 <= pivot_rows@[c] < row + 1
                        && unit_column(matrix, c, pivot_rows@[c] as int) by {
                    if c < pc {
                        assert(pivot_rows@[c] == pr[c]);
                    }
                }
                assert forall|c1: int, c2: int|
                    0 <= c1 < c2 < pivot_rows@.len() && #[trigger] pivot_rows@[c1] != -1 && #[trigger] pivot_rows@[c2] != -1
                        implies pivot_rows@[c1] < pivot_rows@[c2] by {
                    if c2 == pc {
                        assert(pr[c1] < row);
                    }
                    if c1 == pc {
                        assert(pr[c2] == -1);
                    }
                }
                assert forall|r: int| 0 <= r < row + 1 implies #[trigger] row_has_pivot(pivot_rows@, r) by {
                    if r == row {
                        assert(pivot_rows@[pc] == r);
                    } else {
                        assert(row_has_pivot(pr, r));
                        let c = choose|c: int| 0 <= c < pr.len() && #[trigger] pr[c] == r;
                        if c >= pc {
                            assert(pr[c] == -1);
                        }
                        assert(pivot_rows@[c] == r);
                    }
                }
            }
            row = row + 1;
        } else {
            proof {
                let pc = pivot_column as int;
                assert forall|i: int| 0 <= i < matrix.row_count && !q_is_zero(#[trigger] matrix.entry(i, pc))
                    implies exists|c2: int| 0 <= c2 < pc && #[trigger] pivot_rows@[c2] == i by {
                    assert(i < row);
                    assert(row_has_pivot(pivot_rows@, i));
                    let c2 = choose|c2: int| 0 <= c2 < pivot_rows@.len() && #[trigger] pivot_rows@[c2] == i;
                    if c2 >= pc {
                        assert(pivot_rows@[c2] == -1);
                    }
                }
                assert(free_column_ok(matrix, pivot_rows@, pc));
            }
        }

        let ghost pc0 = pivot_column as int;
        loop
            invariant_except_break
                pivot_column < cols,
                pivot_column >= pc0,
                matrix.column_count == cols,
                pivots_ok(matrix, pivot_rows@, pivot_column as int + 1, row as int),
                forall|c: usize, v: &Vec<i32>| call_requires(action, (c, v)),
                transformed_by(m0, *matrix, w, rows as int),
                transformed_by(*matrix, m0, v, rows as int),
                all_transformed_by(o0, others@, w, rows as int),
                forall|c: int| pc0 < c <= pivot_column ==> !#[trigger] action_takes(action, c as usize),
                forall|c: int| 0 < c < cols && action_skips(action, c as usize) ==> #[trigger] pivot_rows@[c] == -1,
            ensures
                pc0 < pivot_column <= cols,
                pivots_ok(matrix, pivot_rows@, pivot_column as int, row as int),
                forall|c: int| pc0 < c < pivot_column ==> !#[trigger] action_takes(action, c as usize),
                forall|c: int| 0 < c < cols && action_skips(action, c as usize) ==> #[trigger] pivot_rows@[c] == -1,
                pivot_column < cols ==> !action_skips(action, pivot_column),
                transformed_by(m0, *matrix, w, rows as int),
                transformed_by(*matrix, m0, v, rows as int),
                all_transformed_by(o0, others@, w, rows as int),
            decreases cols - pivot_column,
        {
            pivot_column = pivot_column + 1;
            if pivot_column >= cols {
                break;
            }
            let ghost shown = &pivot_rows;
            let taken = action(pivot_column, &pivot_rows);
            if taken {
                proof {
                    assert(call_ensures(action, (pivot_column, shown), true));
                }
                break;
            }
            proof {
                assert(pivot_rows@[pivot_column as int] == -1);
            }
        }
    }

    proof {
        assert(pivots_ok(matrix, pivot_rows@, cols as int, row as int));
        assert forall|c: int| 0 <= c < cols && #[trigger] pivot_rows@[c] == -1 && column_examined(action, c) implies free_column_ok(
            matrix,
            pivot_rows@,
            c,
        ) by {
            if c >= pivot_column {
                assert forall|i: int| 0 <= i < matrix.row_count && !q_is_zero(#[trigger] matrix.entry(i, c))
                    implies exists|c2: int| 0 <= c2 < c && #[trigger] pivot_rows@[c2] == i by {
                    assert(row == rows);
                    assert(row_has_pivot(pivot_rows@, i));
                    let c2 = choose|c2: int| 0 <= c2 < pivot_rows@.len() && #[trigger] pivot_rows@[c2] == i;
                    if c2 >= pivot_column {
                        assert(pivot_rows@[c2] == -1);
                    }
                }
            }
        }
    }
    pivot_rows
}

/// Gauss-Jordan elimination of `matrix` alone; see `reduce`.
pub fn reduce_with_action<T: Fn(usize, &Vec<i32>) -> bool>(matrix: &mut BigMatrix, action: T) -> (pivot_rows: Vec<i32>)
    requires
        old(matrix).wf(),
        old(matrix).row_count <= i32::MAX,
        forall|c: usize, v: &Vec<i32>| call_requires(action, (c, v)),
    ensures
        final(matrix).wf(),
        final(matrix).row_count == old(matrix).row_count,
        final(matrix).column_count == old(matrix).column_count,
        exists|row: int|
            0 <= row <= old(matrix).row_count && pivots_ok(final(matrix), pivot_rows@, old(matrix).column_count as int, row)
                && pivot_rows_ordered(pivot_rows@, row),
        forall|c: int|
            0 <= c < old(matrix).column_count && #[trigger] pivot_rows@[c] == -1 && column_examined(action, c)
                ==> free_column_ok(final(matrix), pivot_rows@, c),
        exists|w: Seq<Seq<Q>>| #[trigger] transformed_by(*old(matrix), *final(matrix), w, old(matrix).row_count as int),
        exists|v: Seq<Seq<Q>>| #[trigger] transformed_by(*final(matrix), *old(matrix), v, old(matrix).row_count as int),
        forall|c: int| 0 < c < old(matrix).column_count && action_skips(action, c as usize) ==> #[trigger] pivot_rows@[c] == -1,
{
    let mut others: Vec<BigMatrix> = Vec::new();
    reduce(matrix, &mut others, action)
}

/// Gauss-Jordan elimination of `matrix` over all its columns, which leaves it in reduced row
/// echelon form; see `reduce`.
pub fn reduce_matrix(matrix: &mut BigMatrix) -> (pivot_rows: Vec<i32>)
    requires
        old(matrix).wf(),
        old(matrix).row_count <= i32::MAX,
    ensures
        final(matrix).wf(),
        final(matrix).row_count == old(matrix).row_count,
        final(matrix).column_count == old(matrix).column_count,
        exists|row: int|
            0 <= row <= old(matrix).row_count && pivots_ok(final(matrix), pivot_rows@, old(matrix).column_count as int, row)
                && pivot_rows_ordered(pivot_rows@, row),
        forall|c: int|
            0 <= c < old(matrix).column_count && #[trigger] pivot_rows@[c] == -1 ==> free_column_ok(final(matrix), pivot_rows@, c),
        exists|w: Seq<Seq<Q>>| #[trigger] transformed_by(*old(matrix), *final(matrix), w, old(matrix).row_count as int),
        exists|v: Seq<Seq<Q>>| #[trigger] transformed_by(*final(matrix), *old(matrix), v, old(matrix).row_count as int),
{
    let mut others: Vec<BigMatrix> = Vec::new();
    let take_all = |_col: usize, _rows: &Vec<i32>| -> (take: bool)
        ensures
            take,
        { true };
    reduce(matrix, &mut others, take_all)
}

} // verus!
