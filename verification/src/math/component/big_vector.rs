use crate::math::component::arith::{rat_add, rat_div, rat_eq, rat_mul, rat_sub};
use crate::math::component::rational::{
    lemma_q_add_cong, lemma_q_dot_wf, lemma_q_eq_trans, lemma_q_ops_wf, q_add, q_div, q_dot, q_eq, q_int, q_mul, q_sub, q_wf, wf_rat, BigRational, Q,
};
use vstd::prelude::*;

verus! {

/// The values of a sequence of rationals.
pub open spec fn rat_values(v: Seq<BigRational>) -> Seq<Q> {
    Seq::new(v.len(), |i: int| v[i]@)
}

/// Every rational of the sequence has a positive denominator.
pub open spec fn all_wf(v: Seq<BigRational>) -> bool {
    forall|i: int| 0 <= i < v.len() ==> wf_rat(#[trigger] v[i])
}

/// Every value has a positive denominator.
pub open spec fn all_q_wf(v: Seq<Q>) -> bool {
    forall|i: int| 0 <= i < v.len() ==> q_wf(#[trigger] v[i])
}

/// The two sequences have the same length and equal values.
pub open spec fn q_eq_seq(a: Seq<Q>, b: Seq<Q>) -> bool {
    &&& a.len() == b.len()
    &&& forall|i: int| 0 <= i < a.len() ==> q_eq(#[trigger] a[i], b[i])
}

/// The elementwise sum of the `n` first values.
pub open spec fn q_seq_add(a: Seq<Q>, b: Seq<Q>, n: nat) -> Seq<Q> {
    Seq::new(n, |i: int| q_add(a[i], b[i]))
}

/// The elementwise difference of the `n` first values.
pub open spec fn q_seq_sub(a: Seq<Q>, b: Seq<Q>, n: nat) -> Seq<Q> {
    Seq::new(n, |i: int| q_sub(a[i], b[i]))
}

/// Every value multiplied by `r`.
pub open spec fn q_seq_scale(a: Seq<Q>, r: Q) -> Seq<Q> {
    Seq::new(a.len(), |i: int| q_mul(a[i], r))
}

/// Every value divided by `r`.
pub open spec fn q_seq_div(a: Seq<Q>, r: Q) -> Seq<Q> {
    Seq::new(a.len(), |i: int| q_div(a[i], r))
}

/// The vector with a one at `i` and zeros elsewhere, scaled by `s`.
pub open spec fn q_basis(size: nat, i: int, s: Q) -> Seq<Q> {
    Seq::new(size, |j: int| if j == i { s } else { q_int(0) })
}

/// A vector of rationals.
pub trait Vector {
    /// The values of the vector.
    spec fn values(&self) -> Seq<Q>;

    /// Well-formed: the vector can be read at every index below its dimension.
    spec fn wf_vec(&self) -> bool;

    fn get(&self, index: usize) -> (r: &BigRational)
        requires
            self.wf_vec(),
            index < self.values().len(),
        ensures
            wf_rat(*r),
            r@ == self.values()[index as int],
    ;

    fn dimension(&self) -> (d: usize)
        requires
            self.wf_vec(),
        ensures
            d == self.values().len(),
    ;

    /// The values of a well-formed vector have positive denominators.
    proof fn lemma_values_wf(&self)
        requires
            self.wf_vec(),
        ensures
            all_q_wf(self.values()),
    ;
}

/// The dot product.
pub trait Dot<T: Vector>: Vector {
    fn dot(&self, other: &T) -> (r: BigRational)
        requires
            self.wf_vec(),
            other.wf_vec(),
            self.values().len() <= other.values().len(),
        ensures
            wf_rat(r),
            q_eq(r@, q_dot(self.values(), other.values(), self.values().len())),
    ;
}

impl<T: Vector, S: Vector> Dot<T> for S {
    fn dot(&self, other: &T) -> (r: BigRational) {
        let mut result = BigRational::zero();
        let n = self.dimension();
        let ghost a = self.values();
        let ghost b = other.values();
        let mut i: usize = 0;
        proof {
            self.lemma_values_wf();
            other.lemma_values_wf();
        }
        while i < n
            invariant
                self.wf_vec(),
                other.wf_vec(),
                all_q_wf(a),
                all_q_wf(b),
                a == self.values(),
                b == other.values(),
                n == a.len(),
                n <= b.len(),
                i <= n,
                wf_rat(result),
                q_eq(result@, q_dot(a, b, i as nat)),
            decreases n - i,
        {
            let x = self.get(i);
            let y = other.get(i);
            let p = rat_mul(x, y);
            let ghost old_result = result@;
            result = rat_add(&result, &p);
            proof {
                lemma_q_dot_wf(a, b, i as nat);
                lemma_q_ops_wf(old_result, p@);
                lemma_q_add_cong(old_result, q_dot(a, b, i as nat), p@, q_mul(a[i as int], b[i as int]));
                lemma_q_eq_trans(
                    result@,
                    q_add(old_result, p@),
                    q_add(q_dot(a, b, i as nat), q_mul(a[i as int], b[i as int])),
                );
            }
            i = i + 1;
        }
        result
    }
}

/// The squared Euclidean norm.
pub trait MagnitudeSq: Vector {
    fn magnitude_sq(&self) -> (r: BigRational)
        requires
            self.wf_vec(),
        ensures
            wf_rat(r),
            q_eq(r@, q_dot(self.values(), self.values(), self.values().len())),
    ;
}

impl<T: Vector> MagnitudeSq for T {
    fn magnitude_sq(&self) -> (r: BigRational) {
        self.dot(self)
    }
}

/// Whether every entry is zero.
pub trait IsZero: Vector {
    fn is_zero(&self) -> (b: bool)
        requires
            self.wf_vec(),
        ensures
            b == forall|i: int| 0 <= i < self.values().len() ==> (#[trigger] self.values()[i]).n == 0,
    ;
}

impl<T: Vector> IsZero for T {
    fn is_zero(&self) -> (b: bool) {
        let n = self.dimension();
        let mut i: usize = 0;
        while i < n
            invariant
                self.wf_vec(),
                n == self.values().len(),
                i <= n,
                forall|j: int| 0 <= j < i ==> (#[trigger] self.values()[j]).n == 0,
            decreases n - i,
        {
            if !self.get(i).is_zero() {
                return false;
            }
            i = i + 1;
        }
        true
    }
}

/// Whether two vectors have the same dimension and equal entries.
pub fn vec_equals<S: Vector, T: Vector>(a: &S, b: &T) -> (r: bool)
    requires
        a.wf_vec(),
        b.wf_vec(),
    ensures
        r == q_eq_seq(a.values(), b.values()),
{
    if a.dimension() != b.dimension() {
        return false;
    }
    let n = a.dimension();
    let mut i: usize = 0;
    while i < n
        invariant
            a.wf_vec(),
            b.wf_vec(),
            n == a.values().len(),
            n == b.values().len(),
            i <= n,
            forall|j: int| 0 <= j < i ==> q_eq(#[trigger] a.values()[j], b.values()[j]),
        decreases n - i,
    {
        if !rat_eq(a.get(i), b.get(i)) {
            return false;
        }
        i = i + 1;
    }
    true
}

/// `a + b` entrywise, over the dimension of `a`.
pub fn vec_add<S: Vector, T: Vector>(a: &S, b: &T) -> (r: OwnedBigVector)
    requires
        a.wf_vec(),
        b.wf_vec(),
        a.values().len() <= b.values().len(),
    ensures
        r.wf_vec(),
        q_eq_seq(r.values(), q_seq_add(a.values(), b.values(), a.values().len())),
{
    let n = a.dimension();
    let mut numbers: Vec<BigRational> = Vec::with_capacity(n);
    let mut i: usize = 0;
    while i < n
        invariant
            a.wf_vec(),
            b.wf_vec(),
            n == a.values().len(),
            n <= b.values().len(),
            i <= n,
            numbers.len() == i,
            all_wf(numbers@),
            forall|j: int| 0 <= j < i ==> q_eq(#[trigger] numbers@[j]@, q_add(a.values()[j], b.values()[j])),
        decreases n - i,
    {
        numbers.push(rat_add(a.get(i), b.get(i)));
        i = i + 1;
    }
    OwnedBigVector::new_from_numbers(numbers)
}

/// `a - b` entrywise, over the dimension of `a`.
pub fn vec_sub<S: Vector, T: Vector>(a: &S, b: &T) -> (r: OwnedBigVector)
    requires
        a.wf_vec(),
        b.wf_vec(),
        a.values().len() <= b.values().len(),
    ensures
        r.wf_vec(),
        q_eq_seq(r.values(), q_seq_sub(a.values(), b.values(), a.values().len())),
{
    let n = a.dimension();
    let mut numbers: Vec<BigRational> = Vec::with_capacity(n);
    let mut i: usize = 0;
    while i < n
        invariant
            a.wf_vec(),
            b.wf_vec(),
            n == a.values().len(),
            n <= b.values().len(),
            i <= n,
            numbers.len() == i,
            all_wf(numbers@),
            forall|j: int| 0 <= j < i ==> q_eq(#[trigger] numbers@[j]@, q_sub(a.values()[j], b.values()[j])),
        decreases n - i,
    {
        numbers.push(rat_sub(a.get(i), b.get(i)));
        i = i + 1;
    }
    OwnedBigVector::new_from_numbers(numbers)
}

/// `a * r`: every entry multiplied by `r`.
pub fn vec_scale<S: Vector>(a: &S, r: &BigRational) -> (v: OwnedBigVector)
    requires
        a.wf_vec(),
        wf_rat(*r),
    ensures
        v.wf_vec(),
        q_eq_seq(v.values(), q_seq_scale(a.values(), r@)),
{
    let n = a.dimension();
    let mut numbers: Vec<BigRational> = Vec::with_capacity(n);
    let mut i: usize = 0;
    while i < n
        invariant
            a.wf_vec(),
            wf_rat(*r),
            n == a.values().len(),
            i <= n,
            numbers.len() == i,
            all_wf(numbers@),
            forall|j: int| 0 <= j < i ==> q_eq(#[trigger] numbers@[j]@, q_mul(a.values()[j], r@)),
        decreases n - i,
    {
        numbers.push(rat_mul(a.get(i), r));
        i = i + 1;
    }
    OwnedBigVector::new_from_numbers(numbers)
}

/// A vector that owns its entries.
pub struct OwnedBigVector {
    pub dimension: usize,
    pub numbers: Vec<BigRational>,
}

impl Vector for OwnedBigVector {
    open spec fn values(&self) -> Seq<Q> {
        rat_values(self.numbers@)
    }

    open spec fn wf_vec(&self) -> bool {
        &&& self.dimension == self.numbers.len()
        &&& all_wf(self.numbers@)
    }

    fn get(&self, index: usize) -> (r: &BigRational) {
        &self.numbers[index]
    }

    fn dimension(&self) -> (d: usize) {
        self.dimension
    }

    proof fn lemma_values_wf(&self) {
        assert forall|i: int| 0 <= i < self.values().len() implies q_wf(#[trigger] self.values()[i]) by {
            assert(wf_rat(self.numbers@[i]));
        }
    }
}

impl OwnedBigVector {
    /// A vector whose entry `i` is `f(i)`.
    pub fn new_from<F: Fn(usize) -> BigRational>(dimension: usize, f: F) -> (v: OwnedBigVector)
        requires
            forall|i: usize| i < dimension ==> call_requires(f, (i,)),
            forall|i: usize, r: BigRational| #[trigger] call_ensures(f, (i,), r) ==> wf_rat(r),
        ensures
            v.wf_vec(),
            v.dimension == dimension,
            forall|i: int| 0 <= i < dimension ==> call_ensures(f, (i as usize,), #[trigger] v.numbers@[i]),
    {
        let mut vec: Vec<BigRational> = Vec::with_capacity(dimension);
        let mut i: usize = 0;
        while i < dimension
            invariant
                i <= dimension,
                vec.len() == i,
                all_wf(vec@),
                forall|j: usize| j < dimension ==> call_requires(f, (j,)),
                forall|j: usize, r: BigRational| #[trigger] call_ensures(f, (j,), r) ==> wf_rat(r),
                forall|j: int| 0 <= j < i ==> call_ensures(f, (j as usize,), #[trigger] vec@[j]),
            decreases dimension - i,
        {
            let x = f(i);
            vec.push(x);
            i = i + 1;
        }
        Self::new_from_numbers(vec)
    }

    /// The zero vector of the given dimension.
    pub fn new(dimension: usize) -> (v: OwnedBigVector)
        ensures
            v.wf_vec(),
            v.dimension == dimension,
            forall|i: int| 0 <= i < dimension ==> (#[trigger] v.values()[i]) == q_int(0),
    {
        let mut vec: Vec<BigRational> = Vec::with_capacity(dimension);
        let mut i: usize = 0;
        while i < dimension
            invariant
                i <= dimension,
                vec.len() == i,
                all_wf(vec@),
                forall|j: int| 0 <= j < i ==> (#[trigger] vec@[j])@ == q_int(0),
            decreases dimension - i,
        {
            vec.push(BigRational::zero());
            i = i + 1;
        }
        Self::new_from_numbers(vec)
    }

    /// A vector holding the given numbers.
    pub fn new_from_numbers(numbers: Vec<BigRational>) -> (v: OwnedBigVector)
        ensures
            v.numbers@ == numbers@,
            v.dimension == numbers.len(),
            all_wf(numbers@) ==> v.wf_vec(),
    {
        OwnedBigVector { dimension: numbers.len(), numbers }
    }

    /// A view of this vector.
    pub fn as_view(&self) -> (v: ViewBigVector<'_>)
        requires
            self.wf_vec(),
        ensures
            v.wf_vec(),
            v.values() == self.values(),
    {
        let v = ViewBigVector::new(self.dimension, &self.numbers, 0, 1);
        proof {
            assert(v.values() =~= self.values());
        }
        v
    }

    /// The `i`-th unit vector.
    pub fn basis(size: usize, i: usize) -> (v: OwnedBigVector)
        requires
            i < size,
        ensures
            v.wf_vec(),
            v.values() == q_basis(size as nat, i as int, q_int(1)),
    {
        Self::basis_scaled(size, i, BigRational::one())
    }

    /// The `i`-th unit vector scaled by `scale`.
    pub fn basis_scaled(size: usize, i: usize, scale: BigRational) -> (v: OwnedBigVector)
        requires
            i < size,
            wf_rat(scale),
        ensures
            v.wf_vec(),
            v.values() == q_basis(size as nat, i as int, scale@),
    {
        let ghost s = scale@;
        let mut vector = Self::new(size);
        vector.set(i, scale);
        proof {
            assert(vector.values() =~= q_basis(size as nat, i as int, s));
        }
        vector
    }

    /// Sets entry `index` to `value`.
    pub fn set(&mut self, index: usize, value: BigRational)
        requires
            old(self).wf_vec(),
            index < old(self).dimension,
            wf_rat(value),
        ensures
            final(self).wf_vec(),
            final(self).dimension == old(self).dimension,
            final(self).values() == old(self).values().update(index as int, value@),
    {
        self.numbers[index] = value;
        proof {
            assert(self.values() =~= old(self).values().update(index as int, value@));
        }
    }

    /// `self += other` entrywise.
    pub fn add_assign<T: Vector>(&mut self, other: &T)
        requires
            old(self).wf_vec(),
            other.wf_vec(),
            old(self).values().len() <= other.values().len(),
        ensures
            final(self).wf_vec(),
            final(self).dimension == old(self).dimension,
            q_eq_seq(final(self).values(), q_seq_add(old(self).values(), other.values(), old(self).values().len())),
    {
        let ghost a = self.values();
        let n = self.dimension;
        let mut i: usize = 0;
        while i < n
            invariant
                self.wf_vec(),
                other.wf_vec(),
                n == self.dimension,
                n == a.len(),
                n <= other.values().len(),
                i <= n,
                forall|j: int| i <= j < n ==> (#[trigger] self.values()[j]) == a[j],
                forall|j: int| 0 <= j < i ==> q_eq(#[trigger] self.values()[j], q_add(a[j], other.values()[j])),
            decreases n - i,
        {
            assert(self.values()[i as int] == a[i as int]);
            let x = rat_add(&self.numbers[i], other.get(i));
            let ghost before = self.values();
            self.numbers[i] = x;
            proof {
                assert(self.values() =~= before.update(i as int, x@));
                assert(q_eq(self.values()[i as int], q_add(a[i as int], other.values()[i as int])));
            }
            i = i + 1;
        }
    }

    /// `self -= other` entrywise.
    pub fn sub_assign<T: Vector>(&mut self, other: &T)
        requires
            old(self).wf_vec(),
            other.wf_vec(),
            old(self).values().len() <= other.values().len(),
        ensures
            final(self).wf_vec(),
            final(self).dimension == old(self).dimension,
            q_eq_seq(final(self).values(), q_seq_sub(old(self).values(), other.values(), old(self).values().len())),
    {
        let ghost a = self.values();
        let n = self.dimension;
        let mut i: usize = 0;
        while i < n
            invariant
                self.wf_vec(),
                other.wf_vec(),
                n == self.dimension,
                n == a.len(),
                n <= other.values().len(),
                i <= n,
                forall|j: int| i <= j < n ==> (#[trigger] self.values()[j]) == a[j],
                forall|j: int| 0 <= j < i ==> q_eq(#[trigger] self.values()[j], q_sub(a[j], other.values()[j])),
            decreases n - i,
        {
            assert(self.values()[i as int] == a[i as int]);
            let x = rat_sub(&self.numbers[i], other.get(i));
            let ghost before = self.values();
            self.numbers[i] = x;
            proof {
                assert(self.values() =~= before.update(i as int, x@));
                assert(q_eq(self.values()[i as int], q_sub(a[i as int], other.values()[i as int])));
            }
            i = i + 1;
        }
    }

    /// `self *= r` entrywise.
    pub fn mul_assign(&mut self, r: &BigRational)
        requires
            old(self).wf_vec(),
            wf_rat(*r),
        ensures
            final(self).wf_vec(),
            final(self).dimension == old(self).dimension,
            q_eq_seq(final(self).values(), q_seq_scale(old(self).values(), r@)),
    {
        let ghost a = self.values();
        let n = self.dimension;
        let mut i: usize = 0;
        while i < n
            invariant
                self.wf_vec(),
                wf_rat(*r),
                n == self.dimension,
                n == a.len(),
                i <= n,
                forall|j: int| i <= j < n ==> (#[trigger] self.values()[j]) == a[j],
                forall|j: int| 0 <= j < i ==> q_eq(#[trigger] self.values()[j], q_mul(a[j], r@)),
            decreases n - i,
        {
            assert(self.values()[i as int] == a[i as int]);
            let x = rat_mul(&self.numbers[i], r);
            let ghost before = self.values();
            self.numbers[i] = x;
            proof {
                assert(self.values() =~= before.update(i as int, x@));
                assert(q_eq(self.values()[i as int], q_mul(a[i as int], r@)));
            }
            i = i + 1;
        }
    }

    /// `self /= r` entrywise; `r` is nonzero.
    pub fn div_assign(&mut self, r: &BigRational)
        requires
            old(self).wf_vec(),
            wf_rat(*r),
            r@.n != 0,
        ensures
            final(self).wf_vec(),
            final(self).dimension == old(self).dimension,
            q_eq_seq(final(self).values(), q_seq_div(old(self).values(), r@)),
    {
        let ghost a = self.values();
        let n = self.dimension;
        let mut i: usize = 0;
        while i < n
            invariant
                self.wf_vec(),
                wf_rat(*r),
                r@.n != 0,
                n == self.dimension,
                n == a.len(),
                i <= n,
                forall|j: int| i <= j < n ==> (#[trigger] self.values()[j]) == a[j],
                forall|j: int| 0 <= j < i ==> q_eq(#[trigger] self.values()[j], q_div(a[j], r@)),
            decreases n - i,
        {
            assert(self.values()[i as int] == a[i as int]);
            let x = rat_div(&self.numbers[i], r);
            let ghost before = self.values();
            self.numbers[i] = x;
            proof {
                assert(self.values() =~= before.update(i as int, x@));
                assert(q_eq(self.values()[i as int], q_div(a[i as int], r@)));
            }
            i = i + 1;
        }
    }

    /// A copy of this vector.
    pub fn copy(&self) -> (v: OwnedBigVector)
        requires
            self.wf_vec(),
        ensures
            v.wf_vec(),
            v.dimension == self.dimension,
            v.values() == self.values(),
    {
        let mut numbers: Vec<BigRational> = Vec::with_capacity(self.dimension);
        let mut i: usize = 0;
        while i < self.dimension
            invariant
                self.wf_vec(),
                i <= self.dimension,
                numbers.len() == i,
                all_wf(numbers@),
                forall|j: int| 0 <= j < i ==> (#[trigger] numbers@[j])@ == self.values()[j],
            decreases self.dimension - i,
        {
            numbers.push(self.numbers[i].clone());
            i = i + 1;
        }
        let v = Self::new_from_numbers(numbers);
        proof {
            assert(v.values() =~= self.values());
        }
        v
    }
}

/// A strided view into a vector of numbers: entry `i` is `numbers[start_pos + step * i]`.
pub struct ViewBigVector<'r> {
    pub dimension: usize,
    pub numbers: &'r Vec<BigRational>,
    pub start_pos: usize,
    pub step: usize,
}

/// The position in the underlying numbers of entry `i` of a view.
pub open spec fn view_pos(start_pos: usize, step: usize, i: int) -> int {
    start_pos + step * i
}

impl<'r> Vector for ViewBigVector<'r> {
    open spec fn values(&self) -> Seq<Q> {
        Seq::new(self.dimension as nat, |i: int| self.numbers@[view_pos(self.start_pos, self.step, i)]@)
    }

    open spec fn wf_vec(&self) -> bool {
        &&& all_wf(self.numbers@)
        &&& forall|i: int| 0 <= i < self.dimension ==> #[trigger] view_pos(self.start_pos, self.step, i)
            < self.numbers.len()
    }

    fn get(&self, index: usize) -> (r: &BigRational) {
        proof {
            assert(view_pos(self.start_pos, self.step, index as int) < self.numbers.len());
            vstd::arithmetic::mul::lemma_mul_nonnegative(self.step as int, index as int);
        }
        &self.numbers[self.step * index + self.start_pos]
    }

    fn dimension(&self) -> (d: usize) {
        self.dimension
    }

    proof fn lemma_values_wf(&self) {
        assert forall|i: int| 0 <= i < self.values().len() implies q_wf(#[trigger] self.values()[i]) by {
            assert(view_pos(self.start_pos, self.step, i) < self.numbers.len());
            assert(wf_rat(self.numbers@[view_pos(self.start_pos, self.step, i)]));
        }
    }
}

impl<'r> ViewBigVector<'r> {
    /// A view of `dimension` entries of `numbers`, from `start_pos` on, `step` apart.
    pub fn new(dimension: usize, numbers: &'r Vec<BigRational>, start_pos: usize, step: usize) -> (v:
        ViewBigVector<'r>)
        ensures
            v.dimension == dimension,
            v.numbers == numbers,
            v.start_pos == start_pos,
            v.step == step,
    {
        ViewBigVector { dimension, numbers, start_pos, step }
    }

    /// An owned copy of the entries of this view.
    pub fn to_owned(&self) -> (v: OwnedBigVector)
        requires
            self.wf_vec(),
        ensures
            v.wf_vec(),
            v.dimension == self.dimension,
            v.values() == self.values(),
    {
        let mut vec: Vec<BigRational> = Vec::with_capacity(self.dimension);
        let mut i: usize = 0;
        while i < self.dimension
            invariant
                self.wf_vec(),
                i <= self.dimension,
                vec.len() == i,
                all_wf(vec@),
                forall|j: int| 0 <= j < i ==> (#[trigger] vec@[j])@ == self.values()[j],
            decreases self.dimension - i,
        {
            vec.push(self.get(i).clone());
            i = i + 1;
        }
        let v = OwnedBigVector::new_from_numbers(vec);
        proof {
            assert(v.values() =~= self.values());
        }
        v
    }
}

} // verus!
