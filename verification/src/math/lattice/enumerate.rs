//! The search for the lattice points inside a box: a tree whose levels fix one coordinate
//! of the point each, bounded by linear programs over the box.
use crate::math::component::arith::{int_add, int_lt, rat_add, rat_ceiling, rat_floor, rat_lt, rat_sub};
use crate::math::component::big_matrix::{lemma_entry_wf, BigMatrix};
use crate::math::component::big_vector::{OwnedBigVector, Vector, ViewBigVector};
use crate::math::component::rational::{
    lemma_q_add_cong, lemma_q_ceiling_cong, lemma_q_eq_trans, lemma_q_floor_cong, lemma_q_le_lt_trans, lemma_q_le_trans,
    lemma_q_lt_le_trans, lemma_q_ops_wf, q_add, q_ceiling, q_dot, q_eq, q_floor, q_int, q_lt, q_mul, q_sub, q_wf, wf_rat,
    BigInteger, BigRational, Q,
};
use crate::math::lattice::span::{in_lattice, int_q_seq, lemma_lattice_closed, point_in_lattice};
use crate::math::lattice::decomposition::{inverse, inverse_of, nonsingular};
use crate::math::component::big_vector::{q_basis, q_eq_seq, q_seq_scale};
use crate::math::optimize::optimize::{build_fails, build_outcome, copy_of, simplex_max_fails, simplex_maximum, simplex_min_fails, simplex_minimum, steps_to, Optimize, OptimizeBuilder};
use vstd::prelude::*;

verus! {

/// A node of the search: the first `depth` coordinates (in the search order) are fixed,
/// their values in `fixed`, and `constraints` is the box cut down by those choices.
pub struct SearchNode {
    pub size: usize,
    pub depth: usize,
    pub fixed: OwnedBigVector,
    pub constraints: Optimize,
}

/// What the search starts from: the root node, the inverse of the basis, the origin in the
/// coordinates of the basis, the order in which the coordinates are fixed, and the width of
/// each coordinate's range over the box.
pub struct Search {
    pub root: SearchNode,
    pub inverse: BigMatrix,
    pub origin: OwnedBigVector,
    pub order: Vec<usize>,
    pub widths: Vec<BigRational>,
}

impl SearchNode {
    /// Well-formed: the fixed values form a vector of integers over the coordinates, the depth
    /// is at most their number, and the constraints are a tableau over as many variables.
    pub open spec fn wf(&self) -> bool {
        &&& self.fixed.wf_vec()
        &&& self.fixed.dimension == self.size
        &&& self.depth <= self.size
        &&& self.constraints.wf()
        &&& self.constraints.variables() == self.size
        &&& forall|k: int| 0 <= k < self.size ==> q_is_int(#[trigger] self.fixed.values()[k])
    }

    /// The child that fixes coordinate `index` to `i`: the constraints gain
    /// `gradient . x = i + offset`, and `i` is added to the fixed value of `index`. `None`
    /// where the constraints cannot take one more bound.
    pub fn create_child(&self, index: usize, i: BigInteger, gradient: &ViewBigVector, offset: &BigRational) -> (c: Option<SearchNode>)
        requires
            self.wf(),
            index < self.size,
            self.depth < self.size,
            gradient.wf_vec(),
            gradient.values().len() >= self.size,
            wf_rat(*offset),
        ensures
            c matches Some(child) ==> {
                &&& child.wf()
                &&& child.size == self.size
                &&& child.depth == self.depth + 1
                &&& q_eq(child.fixed.values()[index as int], q_add(self.fixed.values()[index as int], q_int(i@)))
                &&& forall|k: int| 0 <= k < self.size && k != index ==> #[trigger] child.fixed.values()[k] == self.fixed.values()[k]
                &&& exists|b: Q|
                    q_eq(b, q_add(q_int(i@), offset@)) && #[trigger] self.constraints.strict_bound_result(
                        gradient.values(),
                        b,
                        child.constraints,
                    )
            },
            c is None ==> !self.constraints.fits_transform() || self.constraints.cols < 2 || (self.constraints.rows + 1)
                * self.constraints.cols > usize::MAX || exists|b: Q|
                q_eq(b, q_add(q_int(i@), offset@)) && #[trigger] self.constraints.strict_bound_fails(gradient.values(), b),
    {
        let i = BigRational::from_integer(i);
        let bound = rat_add(&i, offset);
        let fits = self.constraints.transform_fits();
        if !fits || self.constraints.cols < 2 || !self.constraints.has_room() {
            return None;
        }
        let next_optimize = match self.constraints.with_strict_bound(gradient, bound) {
            Some(o) => o,
            None => {
                proof {
                    assert(self.constraints.strict_bound_fails(gradient.values(), bound@));
                }
                return None;
            },
        };
        proof {
            assert(self.constraints.strict_bound_result(gradient.values(), bound@, next_optimize));
        }
        let mut next_fixed = self.fixed.copy();
        let updated = rat_add(next_fixed.get(index), &i);
        proof {
            let x = self.fixed.values()[index as int];
            self.fixed.lemma_values_wf();
            lemma_int_add_int(x, i@, updated@);
        }
        next_fixed.set(index, updated);
        Some(SearchNode { size: self.size, depth: self.depth + 1, fixed: next_fixed, constraints: next_optimize })
    }

    /// The children fix coordinate `index` to the consecutive integers from `low` on, added to
    /// this node's value there, and keep the other coordinates.
    pub open spec fn children_from(&self, children: Seq<SearchNode>, index: int, low: int) -> bool {
        forall|c: int|
            0 <= c < children.len() ==> {
                &&& q_eq(
                    (#[trigger] children[c]).fixed.values()[index],
                    q_add(self.fixed.values()[index], q_int(low + c)),
                )
                &&& forall|k: int|
                    0 <= k < self.size && k != index ==> #[trigger] children[c].fixed.values()[k] == self.fixed.values()[k]
            }
    }

    /// The children of this node: coordinate `order[depth]` takes every integer value from
    /// the ceiling of its minimum to the floor of its maximum over the constraints (the
    /// coordinate is row `order[depth]` of `inverse` applied to the point, less the origin's
    /// coordinate), in increasing order. `None` where a linear program or a child fails.
    pub fn expand(&self, inverse: &BigMatrix, origin: &OwnedBigVector, order: &Vec<usize>) -> (r: Option<Vec<SearchNode>>)
        requires
            self.wf(),
            self.depth < self.size,
            inverse.wf(),
            inverse.row_count == self.size,
            inverse.column_count >= self.size,
            origin.wf_vec(),
            origin.dimension == self.size,
            order.len() == self.size,
            forall|k: int| 0 <= k < order.len() ==> #[trigger] order@[k] < self.size,
        ensures
            r matches Some(children) ==> forall|c: int|
                0 <= c < children.len() ==> (#[trigger] children@[c]).wf() && children@[c].size == self.size
                    && children@[c].depth == self.depth + 1,
            r matches Some(children) ==> exists|lo: Q, hi: Q|
                #![trigger simplex_minimum(self.constraints, inverse.row_values(order@[self.depth as int] as int), lo), simplex_maximum(self.constraints, inverse.row_values(order@[self.depth as int] as int), hi)]
                simplex_minimum(self.constraints, inverse.row_values(order@[self.depth as int] as int), lo) && simplex_maximum(
                    self.constraints,
                    inverse.row_values(order@[self.depth as int] as int),
                    hi,
                ) && self.children_from(
                    children@,
                    order@[self.depth as int] as int,
                    q_ceiling(q_sub(lo, origin.values()[order@[self.depth as int] as int])),
                ) && children.len() == if q_floor(q_sub(hi, origin.values()[order@[self.depth as int] as int])) < q_ceiling(
                    q_sub(lo, origin.values()[order@[self.depth as int] as int]),
                ) {
                    0
                } else {
                    q_floor(q_sub(hi, origin.values()[order@[self.depth as int] as int])) - q_ceiling(
                        q_sub(lo, origin.values()[order@[self.depth as int] as int]),
                    ) + 1
                },
            r is None ==> !self.constraints.fits_transform() || simplex_min_fails(
                self.constraints,
                inverse.row_values(order@[self.depth as int] as int),
            ) || simplex_max_fails(self.constraints, inverse.row_values(order@[self.depth as int] as int)) || exists|lo: Q, hi: Q|
                simplex_minimum(self.constraints, inverse.row_values(order@[self.depth as int] as int), lo) && simplex_maximum(
                    self.constraints,
                    inverse.row_values(order@[self.depth as int] as int),
                    hi,
                ) && #[trigger] some_child_fails(
                    self.constraints,
                    inverse.row_values(order@[self.depth as int] as int),
                    origin.values()[order@[self.depth as int] as int],
                    lo,
                    hi,
                ),
    {
        let index = order[self.depth];
        let gradient = inverse.get_row(index);
        let offset = origin.get(index);
        if !self.constraints.transform_fits() {
            return None;
        }
        let mut low_problem = self.constraints.copy();
        proof {
            assert(low_problem.fits_transform());
        }
        let ghost lp0 = low_problem;
        let low = match low_problem.minimize(&gradient) {
            Some(v) => v,
            None => {
                proof {
                    let g = inverse.row_values(index as int);
                    assert(gradient.values() == g);
                    assert(copy_of(self.constraints, lp0));
                    assert(simplex_min_fails(self.constraints, g));
                }
                return None;
            },
        };
        let mut high_problem = self.constraints.copy();
        proof {
            assert(high_problem.fits_transform());
        }
        let ghost hp0 = high_problem;
        let high = match high_problem.maximize(&gradient) {
            Some(v) => v,
            None => {
                proof {
                    let g = inverse.row_values(index as int);
                    assert(gradient.values() == g);
                    assert(copy_of(self.constraints, hp0));
                    assert(simplex_max_fails(self.constraints, g));
                }
                return None;
            },
        };
        let ghost g = inverse.row_values(index as int);
        proof {
            assert(gradient.values() == g);
            let (start, n) = choose|start: Optimize, n: nat|
                lp0.starts_from(start, g) && #[trigger] steps_to(start, low_problem, n);
            assert(copy_of(self.constraints, lp0));
            assert(simplex_minimum(self.constraints, g, low@));
            let (h, start2, n2) = choose|h: Seq<Q>, start2: Optimize, n2: nat|
                #![trigger hp0.starts_from(start2, h), steps_to(start2, high_problem, n2)]
                q_eq_seq(h, q_seq_scale(g, q_int(-1))) && hp0.starts_from(start2, h) && steps_to(start2, high_problem, n2);
            assert(copy_of(self.constraints, hp0));
            assert(simplex_maximum(self.constraints, g, high@));
        }
        let low_gap = rat_sub(&low, offset);
        let high_gap = rat_sub(&high, offset);
        let mut min = rat_ceiling(&low_gap);
        let max = rat_floor(&high_gap);
        proof {
            lemma_q_ops_wf(low@, offset@);
            lemma_q_ops_wf(high@, offset@);
            lemma_q_ceiling_cong(low_gap@, q_sub(low@, offset@));
            lemma_q_floor_cong(high_gap@, q_sub(high@, offset@));
        }
        let one = BigInteger::from_i64(1);
        let mut children: Vec<SearchNode> = Vec::new();
        let ghost lo_q = low@;
        let ghost hi_q = high@;
        let ghost low = min@;
        while !int_lt(&max, &min)
            invariant
                self.wf(),
                self.depth < self.size,
                index < self.size,
                order.len() == self.size,
                index == order@[self.depth as int],
                min@ == low + children.len(),
                children.len() > 0 ==> min@ <= max@ + 1,
                self.children_from(children@, index as int, low),
                gradient.wf_vec(),
                gradient.values().len() >= self.size,
                wf_rat(*offset),
                one@ == 1,
                forall|c: int|
                    0 <= c < children.len() ==> (#[trigger] children@[c]).wf() && children@[c].size == self.size
                        && children@[c].depth == self.depth + 1,
                g == inverse.row_values(index as int),
                gradient.values() == g,
                simplex_minimum(self.constraints, g, lo_q),
                simplex_maximum(self.constraints, g, hi_q),
                low == q_ceiling(q_sub(lo_q, offset@)),
                max@ == q_floor(q_sub(hi_q, offset@)),
                offset@ == origin.values()[index as int],
            decreases max@ - min@ + 1,
        {
            let child = match self.create_child(index, min.clone(), &gradient, offset) {
                Some(c) => c,
                None => {
                    proof {
                        let v = min@;
                        if !(!self.constraints.fits_transform() || self.constraints.cols < 2 || (self.constraints.rows + 1)
                            * self.constraints.cols > usize::MAX) {
                            let b = choose|b: Q|
                                q_eq(b, q_add(q_int(v), offset@)) && #[trigger] self.constraints.strict_bound_fails(gradient.values(), b);
                            assert(q_eq(b, q_add(q_int(v), offset@)) && self.constraints.strict_bound_fails(g, b));
                        }
                        assert(some_child_fails(self.constraints, g, offset@, lo_q, hi_q) || !self.constraints.fits_transform());
                    }
                    return None;
                },
            };
            children.push(child);
            min = int_add(&min, &one);
        }
        let ghost cs = children@;
        let r = Some(children);
        proof {
            assert(r matches Some(ch) ==> ch@ == cs);
        }
        r
    }
}

/// Some child of a node fails to be made: the integers from the ceiling of `lo - off` to the
/// floor of `hi - off` are not empty, and the constraints `o` cannot take one more row, or
/// adding `g . x = v + off` fails for one of those integers `v`.
pub open spec fn some_child_fails(o: Optimize, g: Seq<Q>, off: Q, lo: Q, hi: Q) -> bool {
    let first = q_ceiling(q_sub(lo, off));
    let last = q_floor(q_sub(hi, off));
    &&& first <= last
    &&& o.cols < 2 || (o.rows + 1) * o.cols > usize::MAX || exists|v: int, b: Q|
        #![trigger o.strict_bound_fails(g, b), q_add(q_int(v), off)]
        first <= v <= last && q_eq(b, q_add(q_int(v), off)) && o.strict_bound_fails(g, b)
}

/// Coordinate `a` comes before coordinate `b`: its width is smaller, or the widths are equal
/// and `a` is the lower index.
pub open spec fn width_before(widths: Seq<BigRational>, a: int, b: int) -> bool {
    q_lt(widths[a]@, widths[b]@) || (!q_lt(widths[b]@, widths[a]@) && a < b)
}

/// `w` is the width of the range of `g . x` that the simplex finds on a copy of `o`: its
/// maximum less its minimum.
pub open spec fn simplex_width(o: Optimize, g: Seq<Q>, w: Q) -> bool {
    exists|lo: Q, hi: Q|
        #![trigger simplex_minimum(o, g, lo), simplex_maximum(o, g, hi)]
        simplex_minimum(o, g, lo) && simplex_maximum(o, g, hi) && q_eq(w, q_sub(hi, lo))
}

/// Coming before is transitive.
proof fn lemma_width_before_trans(widths: Seq<BigRational>, a: int, b: int, c: int)
    requires
        0 <= a < widths.len(),
        0 <= b < widths.len(),
        0 <= c < widths.len(),
        forall|k: int| 0 <= k < widths.len() ==> wf_rat(#[trigger] widths[k]),
        width_before(widths, a, b),
        width_before(widths, b, c),
    ensures
        width_before(widths, a, c),
{
    let (x, y, z) = (widths[a]@, widths[b]@, widths[c]@);
    assert(wf_rat(widths[a]) && wf_rat(widths[b]) && wf_rat(widths[c]));
    if q_lt(x, y) {
        if q_lt(y, z) {
            lemma_q_lt_le_trans(x, y, z);
        } else {
            lemma_q_lt_le_trans(x, y, z);
        }
    } else if q_lt(y, z) {
        lemma_q_le_lt_trans(x, y, z);
    } else {
        lemma_q_le_trans(x, y, z);
    }
}

/// Sorts the coordinates `0 .. widths.len()`, given in that order, by their widths,
/// smallest first, keeping the order of equal widths.
fn sort_by_width(order: &mut Vec<usize>, widths: &Vec<BigRational>)
    requires
        old(order)@ == Seq::new(widths.len() as nat, |k: int| k as usize),
        forall|k: int| 0 <= k < widths.len() ==> wf_rat(#[trigger] widths@[k]),
    ensures
        final(order).len() == widths.len(),
        forall|k: int| 0 <= k < final(order).len() ==> #[trigger] final(order)@[k] < widths.len(),
        forall|a: int, b: int| 0 <= a < b < final(order).len() ==> final(order)@[a] != final(order)@[b],
        forall|a: int, b: int|
            0 <= a < b < final(order).len() ==> width_before(widths@, final(order)@[a] as int, final(order)@[b] as int),
{
    let n = order.len();
    let mut j: usize = 1;
    while j < n
        invariant
            order.len() == n,
            n == widths.len(),
            forall|k: int| 0 <= k < widths.len() ==> wf_rat(#[trigger] widths@[k]),
            1 <= j,
            n == 0 || j <= n,
            forall|p: int| j <= p < n ==> #[trigger] order@[p] == p,
            forall|p: int| 0 <= p < j && p < n ==> #[trigger] order@[p] < j,
            forall|a: int, b: int| 0 <= a < b < j && b < n ==> order@[a] != order@[b],
            forall|a: int, b: int|
                0 <= a < b < j && b < n ==> width_before(widths@, order@[a] as int, order@[b] as int),
        decreases n - j,
    {
        let mut k = j;
        while k > 0 && rat_lt(&widths[order[k]], &widths[order[k - 1]])
            invariant
                order.len() == n,
                n == widths.len(),
                forall|x: int| 0 <= x < widths.len() ==> wf_rat(#[trigger] widths@[x]),
                k <= j < n,
                order@[k as int] == j,
                forall|p: int| j < p < n ==> #[trigger] order@[p] == p,
                forall|p: int| 0 <= p <= j && p != k ==> #[trigger] order@[p] < j,
                forall|a: int, b: int| 0 <= a < b <= j ==> order@[a] != order@[b],
                forall|a: int, b: int|
                    0 <= a < b < k ==> width_before(widths@, order@[a] as int, order@[b] as int),
                forall|a: int, b: int|
                    k < a < b <= j ==> width_before(widths@, order@[a] as int, order@[b] as int),
                forall|a: int, b: int|
                    0 <= a < k && k < b <= j ==> width_before(widths@, order@[a] as int, order@[b] as int),
                forall|b: int| k < b <= j ==> width_before(widths@, j as int, #[trigger] order@[b] as int),
            decreases k,
        {
            let a = order[k];
            let b = order[k - 1];
            order.set(k, b);
            order.set(k - 1, a);
            k = k - 1;
        }
        proof {
            assert forall|a: int, b: int| 0 <= a < b < j + 1 && b < n implies width_before(
                widths@,
                order@[a] as int,
                order@[b] as int,
            ) by {
                if b == k {
                    if a == k - 1 {
                    } else {
                        lemma_width_before_trans(widths@, order@[a] as int, order@[k - 1] as int, j as int);
                    }
                }
            }
        }
        j = j + 1;
    }
}

/// Sets up the search for the points `basis^T c` with integer `c` inside the box
/// `lower <= basis^T c <= upper`, as the root of the search: the box as linear
/// constraints, the inverse of the basis, the origin in the basis's coordinates, and the
/// coordinates ordered by the width of their range over the box, narrowest first. `None`
/// where the constraints cannot be built or a linear program fails.
pub fn prepare_search(basis: BigMatrix, lower: OwnedBigVector, upper: OwnedBigVector, origin: &OwnedBigVector) -> (r: Option<Search>)
    requires
        basis.wf(),
        nonsingular(&basis),
        lower.wf_vec(),
        upper.wf_vec(),
        lower.dimension >= basis.row_count,
        upper.dimension >= basis.row_count,
        origin.wf_vec(),
        origin.dimension == basis.row_count,
        (basis.row_count * 3) * 3 + 1 <= usize::MAX,
        (basis.row_count * 3 + 1) * ((basis.row_count * 3) * 3 + 1) <= usize::MAX,
        basis.row_count * 3 <= i32::MAX,
    ensures
        r matches Some(s) ==> {
            &&& s.root.wf()
            &&& s.root.depth == 0
            &&& s.root.size == basis.row_count
            &&& s.inverse.wf()
            &&& s.inverse.row_count == basis.row_count
            &&& s.inverse.column_count == basis.row_count
            &&& s.origin.wf_vec()
            &&& s.origin.dimension == basis.row_count
            &&& s.order.len() == basis.row_count
            &&& forall|k: int| 0 <= k < s.order.len() ==> #[trigger] s.order@[k] < basis.row_count
            &&& forall|a: int, b: int| 0 <= a < b < s.order.len() ==> s.order@[a] != s.order@[b]
            &&& s.widths.len() == basis.row_count
            &&& forall|k: int| 0 <= k < s.widths.len() ==> wf_rat(#[trigger] s.widths@[k])
            &&& forall|a: int, b: int|
                0 <= a < b < s.order.len() ==> width_before(s.widths@, s.order@[a] as int, s.order@[b] as int)
            &&& forall|k: int| 0 <= k < basis.row_count ==> (#[trigger] s.root.fixed.values()[k]) == q_int(0)
            &&& forall|i: int|
                0 <= i < basis.row_count ==> q_eq(
                    #[trigger] s.origin.values()[i],
                    q_dot(origin.values(), s.inverse.row_values(i), basis.row_count as nat),
                )
            &&& exists|box_lp: Optimize|
                #[trigger] copy_of(box_lp, s.root.constraints) && forall|k: int|
                    0 <= k < basis.row_count ==> #[trigger] simplex_width(box_lp, s.inverse.row_values(k), s.widths@[k]@)
            &&& inverse_of(basis, s.inverse)
            &&& exists|b: OptimizeBuilder, box_lp: Optimize|
                #![trigger box_builder(b, lower.values(), upper.values(), basis.row_count as nat), build_outcome(b, box_lp)]
                box_builder(b, lower.values(), upper.values(), basis.row_count as nat) && b.size == basis.row_count
                    && build_outcome(b, box_lp) && copy_of(box_lp, s.root.constraints)
        },
        r is None ==> exists|b: OptimizeBuilder|
            #[trigger] box_builder(b, lower.values(), upper.values(), basis.row_count as nat) && b.size == basis.row_count && (
            build_fails(b) || exists|cons: Optimize|
                #[trigger] build_outcome(b, cons) && (!cons.fits_transform() || exists|inv: BigMatrix, k: int|
                    #![trigger inverse_of(basis, inv), inv.row_values(k)]
                    inverse_of(basis, inv) && 0 <= k < basis.row_count && (simplex_min_fails(cons, inv.row_values(k))
                        || simplex_max_fails(cons, inv.row_values(k))))),
{
    let rows = basis.row_count;
    let mut builder = OptimizeBuilder::of_size(rows);
    let mut i: usize = 0;
    while i < rows
        invariant
            builder.wf(),
            builder.size == rows,
            builder.slacks.len() == 2 * i,
            lower.wf_vec(),
            upper.wf_vec(),
            lower.dimension >= rows,
            upper.dimension >= rows,
            i <= rows,
            box_builder(builder, lower.values(), upper.values(), i as nat),
        decreases rows - i,
    {
        let ghost b0 = builder;
        builder.with_lower_bound(i, lower.get(i).clone());
        let ghost b1 = builder;
        builder.with_upper_bound(i, upper.get(i).clone());
        proof {
            assert(builder.lefts@.drop_last().drop_last() == b0.lefts@);
            assert forall|k: int| 0 <= k < i + 1 implies #[trigger] box_pair(builder, lower.values(), upper.values(), k) by {
                if k < i {
                    assert(box_pair(b0, lower.values(), upper.values(), k));
                    assert(builder.lefts@[2 * k] == b0.lefts@[2 * k]);
                    assert(builder.lefts@[2 * k + 1] == b0.lefts@[2 * k + 1]);
                } else {
                    assert(builder.lefts@[2 * k] == b1.lefts@.last());
                }
            }
        }
        i = i + 1;
    }
    let ghost built = builder;
    let constraints = match builder.build() {
        Some(c) => c,
        None => {
            return None;
        },
    };
    let root_inverse = inverse(&basis);
    proof {
        assert(inverse_of(basis, root_inverse));
    }
    let root_origin = root_inverse.mul_vector(origin);
    let root_fixed = OwnedBigVector::new(rows);
    let root_constraints = constraints.copy();
    if !constraints.transform_fits() {
        proof {
            assert(build_outcome(built, constraints));
        }
        return None;
    }
    let mut widths: Vec<BigRational> = Vec::new();
    let mut order: Vec<usize> = Vec::new();
    let mut i: usize = 0;
    while i < rows
        invariant
            constraints.wf(),
            constraints.fits_transform(),
            constraints.variables() == rows,
            root_inverse.wf(),
            root_inverse.row_count == rows,
            root_inverse.column_count == rows,
            widths.len() == i,
            order.len() == i,
            forall|k: int| 0 <= k < i ==> #[trigger] order@[k] == k,
            forall|k: int| 0 <= k < widths.len() ==> wf_rat(#[trigger] widths@[k]),
            i <= rows,
            forall|k: int| 0 <= k < i ==> #[trigger] simplex_width(constraints, root_inverse.row_values(k), widths@[k]@),
            box_builder(built, lower.values(), upper.values(), rows as nat),
            built.size == rows,
            build_outcome(built, constraints),
            inverse_of(basis, root_inverse),
            rows == basis.row_count,
        decreases rows - i,
    {
        let gradient = root_inverse.get_row(i);
        let mut low_problem = constraints.copy();
        proof {
            assert(low_problem.fits_transform());
        }
        let ghost lp0 = low_problem;
        let min = match low_problem.minimize(&gradient) {
            Some(v) => v,
            None => {
                proof {
                    let g = root_inverse.row_values(i as int);
                    assert(gradient.values() == g);
                    assert(simplex_min_fails(constraints, g));
                }
                return None;
            },
        };
        let mut high_problem = constraints.copy();
        proof {
            assert(high_problem.fits_transform());
        }
        let ghost hp0 = high_problem;
        let max = match high_problem.maximize(&gradient) {
            Some(v) => v,
            None => {
                proof {
                    let g = root_inverse.row_values(i as int);
                    assert(gradient.values() == g);
                    assert(simplex_max_fails(constraints, g));
                }
                return None;
            },
        };
        let w = rat_sub(&max, &min);
        proof {
            let g = root_inverse.row_values(i as int);
            assert(gradient.values() == g);
            let (start, n) = choose|start: Optimize, n: nat|
                lp0.starts_from(start, g) && #[trigger] steps_to(start, low_problem, n);
            assert(simplex_minimum(constraints, g, min@));
            let (h, start2, n2) = choose|h: Seq<Q>, start2: Optimize, n2: nat|
                #![trigger hp0.starts_from(start2, h), steps_to(start2, high_problem, n2)]
                q_eq_seq(h, q_seq_scale(g, q_int(-1))) && hp0.starts_from(start2, h) && steps_to(start2, high_problem, n2);
            assert(simplex_maximum(constraints, g, max@));
            assert(simplex_width(constraints, g, w@));
        }
        widths.push(w);
        order.push(i);
        proof {
            assert(widths@[i as int] == w);
        }
        i = i + 1;
    }
    proof {
        assert(order@ =~= Seq::new(widths.len() as nat, |k: int| k as usize));
    }
    sort_by_width(&mut order, &widths);
    let root = SearchNode { size: rows, depth: 0, fixed: root_fixed, constraints: root_constraints };
    let ghost ws = widths@;
    let r = Search { root, inverse: root_inverse, origin: root_origin, order, widths };
    proof {
        assert(copy_of(constraints, r.root.constraints));
    }
    Some(r)
}

/// Constraints `2 k` and `2 k + 1` of `b` bound variable `k` from below by `lower[k]` and
/// from above by `upper[k]`.
pub open spec fn box_pair(b: OptimizeBuilder, lower: Seq<Q>, upper: Seq<Q>, k: int) -> bool {
    &&& b.slacks@[2 * k] == -1i32
    &&& b.slacks@[2 * k + 1] == 1i32
    &&& b.lefts@[2 * k].values() == q_basis(b.size as nat, k, q_int(1))
    &&& b.lefts@[2 * k + 1].values() == q_basis(b.size as nat, k, q_int(1))
    &&& b.rights@[2 * k]@ == lower[k]
    &&& b.rights@[2 * k + 1]@ == upper[k]
}

/// The builder holds the box of the first `n` variables and nothing else: for each of them
/// in turn, `x[k] >= lower[k]` and then `x[k] <= upper[k]`.
pub open spec fn box_builder(b: OptimizeBuilder, lower: Seq<Q>, upper: Seq<Q>, n: nat) -> bool {
    &&& b.wf()
    &&& b.slacks@.len() == 2 * n
    &&& forall|k: int| 0 <= k < n ==> #[trigger] box_pair(b, lower, upper, k)
}

/// The rational is an integer.
pub open spec fn q_is_int(a: Q) -> bool {
    a.d > 0 && a.n % a.d == 0
}

/// A number equal to the sum of an integer and another integer is an integer.
proof fn lemma_int_add_int(x: Q, y: Q, z: Q)
    requires
        q_is_int(x),
        y.d == 1,
        z.d > 0,
        q_eq(z, q_add(x, y)),
    ensures
        q_is_int(z),
{
    vstd::arithmetic::div_mod::lemma_fundamental_div_mod(x.n, x.d);
    let k = x.n / x.d;
    let s = q_add(x, y);
    assert(s.n == (k + y.n) * s.d) by (nonlinear_arith)
        requires
            x.n == x.d * k + 0,
            s.n == x.n * y.d + y.n * x.d,
            s.d == x.d * y.d,
            y.d == 1,
    ;
    assert(z.n * s.d == (k + y.n) * z.d * s.d) by (nonlinear_arith)
        requires
            z.n * s.d == s.n * z.d,
            s.n == (k + y.n) * s.d,
    ;
    assert(s.d > 0) by (nonlinear_arith)
        requires
            s.d == x.d * y.d,
            x.d > 0,
            y.d == 1,
    ;
    assert(z.n == (k + y.n) * z.d) by (nonlinear_arith)
        requires
            z.n * s.d == (k + y.n) * z.d * s.d,
            s.d > 0,
    ;
    vstd::arithmetic::div_mod::lemma_mod_multiples_basic(k + y.n, z.d);
    assert((k + y.n) * z.d == z.n);
}

/// The integer that an integer rational stands for.
pub open spec fn q_int_value(a: Q) -> int {
    a.n / a.d
}

/// Sums of products that agree term by term agree.
proof fn lemma_dot_cong(a: Seq<Q>, b: Seq<Q>, x: Seq<Q>, y: Seq<Q>, n: nat)
    requires
        n <= a.len(),
        n <= b.len(),
        n <= x.len(),
        n <= y.len(),
        forall|k: int| 0 <= k < n ==> q_wf(#[trigger] a[k]) && q_wf(b[k]) && q_wf(x[k]) && q_wf(y[k]),
        forall|k: int| 0 <= k < n ==> q_eq(#[trigger] q_mul(a[k], b[k]), q_mul(x[k], y[k])),
    ensures
        q_eq(q_dot(a, b, n), q_dot(x, y, n)),
        q_wf(q_dot(a, b, n)),
        q_wf(q_dot(x, y, n)),
    decreases n,
{
    if n > 0 {
        let n1 = (n - 1) as nat;
        lemma_dot_cong(a, b, x, y, n1);
        assert(q_wf(a[n1 as int]) && q_wf(b[n1 as int]) && q_wf(x[n1 as int]) && q_wf(y[n1 as int]));
        assert(q_eq(q_mul(a[n1 as int], b[n1 as int]), q_mul(x[n1 as int], y[n1 as int])));
        lemma_q_add_cong(q_dot(a, b, n1), q_dot(x, y, n1), q_mul(a[n1 as int], b[n1 as int]), q_mul(x[n1 as int], y[n1 as int]));
        lemma_q_ops_wf(a[n1 as int], b[n1 as int]);
        lemma_q_ops_wf(x[n1 as int], y[n1 as int]);
        lemma_q_ops_wf(q_dot(a, b, n1), q_mul(a[n1 as int], b[n1 as int]));
        lemma_q_ops_wf(q_dot(x, y, n1), q_mul(x[n1 as int], y[n1 as int]));
    }
}

/// The point of a node of the search is a point of the lattice: where the rows of `lattice`
/// are points of the lattice of `base`, and `point` is `lattice^T fixed` for the fixed
/// (integer) coordinates of a node, `point` is a point of the lattice of `base`.
pub proof fn lemma_node_point_in_lattice(node: SearchNode, lattice: BigMatrix, base: BigMatrix, point: Seq<Q>)
    requires
        node.wf(),
        lattice.wf(),
        base.wf(),
        lattice.column_count == base.column_count,
        lattice.row_count == node.size,
        forall|i: int| 0 <= i < lattice.row_count ==> in_lattice(lattice, i, base),
        point.len() == lattice.column_count,
        forall|c: int|
            0 <= c < point.len() ==> q_eq(#[trigger] point[c], q_dot(lattice.column_values(c), node.fixed.values(), node.size as nat)),
    ensures
        point_in_lattice(point, base),
{
    let n = node.size as nat;
    let fx = node.fixed.values();
    let f = Seq::new(n, |k: int| q_int_value(fx[k]));
    node.fixed.lemma_values_wf();
    assert forall|c: int| 0 <= c < point.len() implies q_eq(
        #[trigger] point[c],
        q_dot(int_q_seq(f), lattice.column_values(c), lattice.row_count as nat),
    ) by {
        let col = lattice.column_values(c);
        let fq = int_q_seq(f);
        assert forall|k: int| 0 <= k < n implies q_wf(#[trigger] col[k]) && q_wf(fx[k]) && q_wf(fq[k]) && q_wf(col[k]) by {
            lemma_entry_wf(&lattice, k, c);
        }
        assert forall|k: int| 0 <= k < n implies q_eq(#[trigger] q_mul(col[k], fx[k]), q_mul(fq[k], col[k])) by {
            let x = fx[k];
            assert(q_is_int(x));
            vstd::arithmetic::div_mod::lemma_fundamental_div_mod(x.n, x.d);
            assert(fq[k] == q_int(x.n / x.d));
            let e = col[k];
            let v = x.n / x.d;
            assert(q_mul(e, x).n * q_mul(q_int(v), e).d == q_mul(q_int(v), e).n * q_mul(e, x).d) by (nonlinear_arith)
                requires
                    x.n == x.d * v + 0,
            ;
        }
        lemma_dot_cong(col, fx, fq, col, n);
        lemma_q_eq_trans(point[c], q_dot(col, fx, n), q_dot(fq, col, n));
    }
    lemma_lattice_closed(lattice, base, f, point);
}

} // verus!
