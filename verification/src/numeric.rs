//! Numeric reductions: sums, products and means of whole arrays and along
//! one axis, and the streaming variance.

use vstd::prelude::*;
use vstd::slice::slice_subrange;
use vstd::std_specs::cmp::PartialOrdIs;
use crate::array::ArrayBase;
use crate::array::ArrayModel;
use crate::array::lemma_index_axis_at;
use crate::array::valid;
use crate::dimension::Axis;
use crate::dimension::ShapeError;
use crate::dimension::extents;
use crate::iter::Offsets;
use crate::layout::Layout;
use crate::layout::capacity;
use crate::layout::dot;
use crate::layout::lemma_index_axis;
use crate::layout::lemma_index_axis_fits;
use crate::layout::lemma_product_nonnegative;
use crate::layout::lemma_product_remove;
use crate::layout::lemma_standard_fits;
use crate::layout::lemma_unravel_within;
use crate::layout::product;
use crate::layout::unravel;
use crate::layout::within;
use crate::scalar::Numeric;
use crate::scalar::Real;

verus! {

/// The two folds over all elements: the sum, from 0, and the product, from 1.
#[derive(Clone, Copy, Debug, PartialEq, Eq, Structural)]
pub enum Monoid {
    Sum,
    Product,
}

/// The value that a fold starts from.
pub open spec fn unit<A: Numeric>(op: Monoid) -> A {
    match op {
        Monoid::Sum => A::zero_spec(),
        Monoid::Product => A::one_spec(),
    }
}

/// One step of a fold.
pub open spec fn combine<A: Numeric>(op: Monoid, a: A, b: A) -> A {
    match op {
        Monoid::Sum => a.add_spec(b),
        Monoid::Product => a.mul_spec(b),
    }
}

/// The fold of `xs` from the left, starting from `init`.
pub open spec fn fold<A: Numeric>(op: Monoid, init: A, xs: Seq<A>) -> A
    decreases xs.len(),
{
    if xs.len() == 0 {
        init
    } else {
        combine(op, fold(op, init, xs.drop_last()), xs.last())
    }
}

/// The fold, from the unit, of every eighth element of the first `blocks`
/// blocks of eight, starting with element `j`.
pub open spec fn stripe<A: Numeric>(op: Monoid, xs: Seq<A>, j: int, blocks: int) -> A
    decreases blocks,
{
    if blocks <= 0 {
        unit(op)
    } else {
        combine(op, stripe(op, xs, j, blocks - 1), xs[8 * (blocks - 1) + j])
    }
}

/// The eight stripes over the first `blocks` blocks of eight, joined in
/// pairs onto the unit.
pub open spec fn joined<A: Numeric>(op: Monoid, xs: Seq<A>, blocks: int) -> A {
    let a0 = combine(
        op,
        unit(op),
        combine(op, stripe(op, xs, 0, blocks), stripe(op, xs, 4, blocks)),
    );
    let a1 = combine(op, a0, combine(op, stripe(op, xs, 1, blocks), stripe(op, xs, 5, blocks)));
    let a2 = combine(op, a1, combine(op, stripe(op, xs, 2, blocks), stripe(op, xs, 6, blocks)));
    combine(op, a2, combine(op, stripe(op, xs, 3, blocks), stripe(op, xs, 7, blocks)))
}

/// The fold in eight interleaved stripes: the stripes over the full blocks
/// of eight are joined in pairs, and the rest is folded in from the left.
pub open spec fn unrolled<A: Numeric>(op: Monoid, xs: Seq<A>) -> A {
    let blocks = xs.len() as int / 8;
    fold(op, joined(op, xs, blocks), xs.skip(8 * blocks))
}

fn identity<A: Numeric>(op: Monoid) -> (r: A)
    ensures
        r == unit::<A>(op),
{
    match op {
        Monoid::Sum => A::zero(),
        Monoid::Product => A::one(),
    }
}

fn apply<A: Numeric>(op: Monoid, a: A, b: A) -> (r: A)
    ensures
        r == combine(op, a, b),
{
    match op {
        Monoid::Sum => a.add(b),
        Monoid::Product => a.mul(b),
    }
}

/// Folds a slice in eight stripes, so that the steps of different stripes
/// do not wait for each other.
pub fn unrolled_fold<A: Numeric>(op: Monoid, xs: &[A]) -> (r: A)
    ensures
        r == unrolled(op, xs@),
{
    let n = xs.len();
    let mut p0: A = identity(op);
    let mut p1: A = identity(op);
    let mut p2: A = identity(op);
    let mut p3: A = identity(op);
    let mut p4: A = identity(op);
    let mut p5: A = identity(op);
    let mut p6: A = identity(op);
    let mut p7: A = identity(op);
    let mut b: usize = 0;
    while n - 8 * b >= 8
        invariant
            n == xs.len(),
            8 * b <= n,
            p0 == stripe(op, xs@, 0, b as int),
            p1 == stripe(op, xs@, 1, b as int),
            p2 == stripe(op, xs@, 2, b as int),
            p3 == stripe(op, xs@, 3, b as int),
            p4 == stripe(op, xs@, 4, b as int),
            p5 == stripe(op, xs@, 5, b as int),
            p6 == stripe(op, xs@, 6, b as int),
            p7 == stripe(op, xs@, 7, b as int),
        decreases n - 8 * b,
    {
        let at = 8 * b;
        p0 = apply(op, p0, xs[at]);
        p1 = apply(op, p1, xs[at + 1]);
        p2 = apply(op, p2, xs[at + 2]);
        p3 = apply(op, p3, xs[at + 3]);
        p4 = apply(op, p4, xs[at + 4]);
        p5 = apply(op, p5, xs[at + 5]);
        p6 = apply(op, p6, xs[at + 6]);
        p7 = apply(op, p7, xs[at + 7]);
        b += 1;
    }
    assert(b == n / 8);
    let mut acc: A = identity(op);
    acc = apply(op, acc, apply(op, p0, p4));
    acc = apply(op, acc, apply(op, p1, p5));
    acc = apply(op, acc, apply(op, p2, p6));
    acc = apply(op, acc, apply(op, p3, p7));
    let ghost joined = acc;
    let ghost rest = xs@.skip(8 * b);
    let mut i: usize = 8 * b;
    while i < n
        invariant
            8 * b <= i <= n,
            n == xs.len(),
            rest == xs@.skip(8 * b),
            acc == fold(op, joined, rest.take(i - 8 * b)),
        decreases n - i,
    {
        proof {
            assert(rest.take(i + 1 - 8 * b).drop_last() =~= rest.take(i - 8 * b));
        }
        acc = apply(op, acc, xs[i]);
        i += 1;
    }
    proof {
        assert(rest.take(n - 8 * b) =~= rest);
    }
    acc
}

impl<A: Numeric> ArrayModel<A> {
    /// The number of rows: of runs along the last axis.
    pub open spec fn rows(self) -> int {
        product(self.layout.shape.drop_last())
    }

    /// The `r`-th row, counting the rows in row-major order of the axes
    /// before the last.
    pub open spec fn row(self, r: int) -> Seq<A> {
        Seq::new(
            self.layout.shape.last() as nat,
            |j: int| self.elem(unravel(self.layout.shape.drop_last(), r).push(j)),
        )
    }

    /// Whether a row lies in the buffer element by element.
    pub open spec fn row_is_slice(self) -> bool {
        self.layout.shape.last() <= 1 || self.layout.strides.last() == 1
    }

    /// The fold of one row: in stripes where the row is a slice of the
    /// buffer, from the left otherwise.
    pub open spec fn row_fold(self, op: Monoid, r: int) -> A {
        if self.row_is_slice() {
            unrolled(op, self.row(r))
        } else {
            fold(op, unit(op), self.row(r))
        }
    }

    /// The fold of the folds of the first `n` rows.
    pub open spec fn rows_fold(self, op: Monoid, n: int) -> A
        decreases n,
    {
        if n <= 0 {
            unit(op)
        } else {
            combine(op, self.rows_fold(op, n - 1), self.row_fold(op, n - 1))
        }
    }

    /// The fold of all elements: in stripes over the buffer where the array
    /// is contiguous, row by row otherwise.
    pub open spec fn reduce(self, op: Monoid) -> A {
        if self.layout.is_contiguous() {
            unrolled(op, self.memory())
        } else {
            self.rows_fold(op, self.rows())
        }
    }

    /// The sum of all elements.
    pub open spec fn sum(self) -> A {
        self.reduce(Monoid::Sum)
    }

    /// The product of all elements.
    pub open spec fn product(self) -> A {
        self.reduce(Monoid::Product)
    }

    /// The number of elements as an element, where the type can hold it.
    pub open spec fn count(self) -> Option<A> {
        A::from_usize_spec(self.layout.size() as usize)
    }

    /// The arithmetic mean of all elements; `None` without any.
    pub open spec fn mean(self) -> Option<A> {
        if self.layout.size() == 0 {
            None
        } else {
            Some(self.sum().div_spec(self.count().unwrap()))
        }
    }
}

impl<'a, A> ArrayBase<'a, A> {
    /// An array of the given shape in which every element is 0.
    pub fn zeros(shape: &[usize]) -> (r: Result<ArrayBase<'static, A>, ShapeError>) where
        A: Numeric,

        ensures
            match r {
                Ok(a) => {
                    &&& a@.layout == Layout::standard(extents(shape@))
                    &&& a@.buf == Seq::new(
                        product(extents(shape@)) as nat,
                        |i: int| A::zero_spec(),
                    )
                    &&& valid(a@)
                },
                Err(e) => e == ShapeError::Overflow && capacity(extents(shape@)) > isize::MAX,
            },
    {
        ArrayBase::from_elem(shape, A::zero())
    }

    /// Folds all elements: over the buffer in stripes where the array is
    /// contiguous, otherwise row by row.
    pub fn fold_all(&self, op: Monoid) -> (r: A) where A: Numeric
        ensures
            r == self@.reduce(op),
    {
        match self.as_slice_memory_order() {
            Some(slc) => {
                return unrolled_fold(op, slc);
            },
            None => {},
        }
        let dim = self.raw_dim();
        let data = self.raw_data();
        let ghost m = self@;
        let ghost l = m.layout;
        let n = dim.ndim();
        proof {
            lemma_product_nonnegative(l.shape);
        }
        assert(n > 0);
        assert(l.size() > 0);
        let last = Axis(n - 1);
        let len = dim.len_of(last);
        let stride = dim.stride_of(last);
        proof {
            lemma_product_nonnegative(l.shape);
            assert(l.shape[n - 1] > 0);
            lemma_index_axis_fits(l, n - 1, 0, data@.len() as int);
            assert(l.index_axis(n - 1, 0) == l.remove_axis(n - 1));
            lemma_product_remove(l.shape, n - 1);
            assert(l.shape.remove(n - 1) =~= l.shape.drop_last());
            assert(l.strides.remove(n - 1) =~= l.strides.drop_last());
        }
        let outer = dim.remove_axis(last);
        let rows = outer.size();
        let mut it = Offsets::new(&outer, data.len());
        let mut acc: A = identity(op);
        let mut r: usize = 0;
        while r < rows
            invariant
                r <= rows,
                rows == m.rows(),
                m == self@,
                l == m.layout,
                valid(m),
                data@ == m.buf,
                n == l.ndim(),
                n > 0,
                len == l.shape.last(),
                len > 0,
                stride == l.strides.last(),
                it.wf(),
                it.layout() == l.remove_axis(n - 1),
                l.shape.remove(n - 1) == l.shape.drop_last(),
                l.strides.remove(n - 1) == l.strides.drop_last(),
                it.count() == r,
                acc == m.rows_fold(op, r as int),
            decreases rows - r,
        {
            let base = it.next().unwrap();
            let ghost idx = unravel(l.shape.drop_last(), r as int);
            proof {
                lemma_unravel_within(l.shape.drop_last(), r as int);
                assert forall|j: int| 0 <= j < len implies within(#[trigger] idx.push(j), l.shape)
                    && l.position(idx.push(j)) == base + j * stride by {
                    let full = idx.push(j);
                    assert(full.drop_last() =~= idx);
                    assert forall|i: int| 0 <= i < full.len() implies 0 <= #[trigger] full[i]
                        < l.shape[i] by {
                        if i < n - 1 {
                            assert(0 <= idx[i] < l.shape.drop_last()[i]);
                        }
                    }
                }
            }
            let part: A = if len <= 1 || stride == 1 {
                proof {
                    assert(within(idx.push(len - 1), l.shape));
                    assert(within(idx.push(0), l.shape));
                    assert(0 * stride == 0);
                    assert((len - 1) * stride == len - 1) by (nonlinear_arith)
                        requires
                            len == 1 || stride == 1,
                    ;
                }
                let row = slice_subrange(data, base, base + len);
                proof {
                    assert forall|j: int| 0 <= j < len implies row@[j] == #[trigger] m.row(
                        r as int,
                    )[j] by {
                        assert(within(idx.push(j), l.shape));
                        assert(j * stride == j) by (nonlinear_arith)
                            requires
                                0 <= j < len,
                                len == 1 || stride == 1,
                        ;
                    }
                    assert(row@ =~= m.row(r as int));
                }
                unrolled_fold(op, row)
            } else {
                let mut part: A = identity(op);
                let mut pos: usize = base;
                let mut j: usize = 0;
                while j < len
                    invariant
                        j <= len,
                        n == l.ndim(),
                        n > 0,
                        len == l.shape.last(),
                        data@ == m.buf,
                        valid(m),
                        l == m.layout,
                        idx == unravel(l.shape.drop_last(), r as int),
                        forall|j: int|
                            0 <= j < len ==> within(#[trigger] idx.push(j), l.shape) && l.position(
                                idx.push(j),
                            ) == base + j * stride,
                        j < len ==> pos == base + j * stride,
                        part == fold(op, unit(op), m.row(r as int).take(j as int)),
                    decreases len - j,
                {
                    proof {
                        assert(within(idx.push(j as int), l.shape));
                        assert(m.row(r as int).take(j + 1).drop_last() =~= m.row(r as int).take(
                            j as int,
                        ));
                    }
                    part = apply(op, part, data[pos]);
                    j += 1;
                    if j < len {
                        proof {
                            assert(within(idx.push(j as int), l.shape));
                            assert((j - 1) * stride + stride == j * stride) by (nonlinear_arith);
                        }
                        pos = (pos as isize + stride) as usize;
                    }
                }
                proof {
                    assert(m.row(r as int).take(len as int) =~= m.row(r as int));
                }
                part
            };
            acc = apply(op, acc, part);
            r += 1;
        }
        acc
    }

    /// The sum of all elements.
    pub fn sum(&self) -> (r: A) where A: Numeric
        ensures
            r == self@.sum(),
    {
        self.fold_all(Monoid::Sum)
    }

    /// The sum of all elements: another name for `sum`.
    pub fn scalar_sum(&self) -> (r: A) where A: Numeric
        ensures
            r == self@.sum(),
    {
        self.sum()
    }

    /// The product of all elements.
    pub fn product(&self) -> (r: A) where A: Numeric
        ensures
            r == self@.product(),
    {
        self.fold_all(Monoid::Product)
    }

    /// The arithmetic mean of all elements, or `None` where there are none.
    /// The number of elements must be one that the element type can hold and
    /// divide by.
    pub fn mean(&self) -> (r: Option<A>) where A: Numeric
        requires
            self@.layout.size() > 0 ==> self@.count().is_some() && self@.count().unwrap().divides(),
        ensures
            r == self@.mean(),
    {
        let n = self.len();
        if n == 0 {
            None
        } else {
            let count = A::from_usize(n).unwrap();
            Some(self.sum().div(count))
        }
    }
}

impl<A: Numeric> ArrayModel<A> {
    /// Whether the sum along axis `a` takes each lane as a slice of the
    /// buffer: in a matrix whose axis `a` has stride 1.
    pub open spec fn lanes_are_slices(self, a: int) -> bool {
        self.layout.ndim() == 2 && self.layout.strides[a] == 1
    }

    /// The sum of one lane along axis `a`: in stripes where the lanes are
    /// slices of the buffer, from the left otherwise.
    pub open spec fn lane_sum(self, a: int, p: int) -> A {
        if self.lanes_are_slices(a) {
            unrolled(Monoid::Sum, self.lane(a, p))
        } else {
            fold(Monoid::Sum, A::zero_spec(), self.lane(a, p))
        }
    }

    /// The sums along axis `a`, in row-major order of the other axes.
    pub open spec fn sum_axis(self, a: int) -> Seq<A> {
        Seq::new(product(self.layout.shape.remove(a)) as nat, |p: int| self.lane_sum(a, p))
    }

    /// The extent of axis `a` as an element, where the type can hold it.
    pub open spec fn axis_count(self, a: int) -> Option<A> {
        A::from_usize_spec(self.layout.shape[a] as usize)
    }

    /// The means along axis `a`, in row-major order of the other axes;
    /// `None` where the axis has no index.
    pub open spec fn mean_axis(self, a: int) -> Option<Seq<A>> {
        if self.layout.shape[a] == 0 {
            None
        } else {
            Some(
                Seq::new(
                    product(self.layout.shape.remove(a)) as nat,
                    |p: int| self.lane_sum(a, p).div_spec(self.axis_count(a).unwrap()),
                ),
            )
        }
    }
}

/// The product of a single extent is that extent.
proof fn lemma_product_single(s: Seq<int>)
    requires
        s.len() == 1,
    ensures
        product(s) == s[0],
{
    assert(s.drop_last() =~= Seq::<int>::empty());
    assert(product(s.drop_last()) == 1);
    assert(1 * s.last() == s.last());
}

/// In a matrix whose axis `a` has stride 1, the part at index `p` of the
/// other axis is contiguous, and its memory is the `p`-th lane along `a`.
proof fn lemma_matrix_lane<A: Numeric>(m: ArrayModel<A>, a: int, p: int, op: Monoid)
    requires
        valid(m),
        m.layout.ndim() == 2,
        0 <= a < 2,
        m.layout.strides[a] == 1,
        0 <= p < m.layout.shape[1 - a],
    ensures
        product(m.layout.shape.remove(a)) == m.layout.shape[1 - a],
        m.index_axis(1 - a, p).reduce(op) == unrolled(op, m.lane(a, p)),
{
    let l = m.layout;
    let other = 1 - a;
    let part = m.index_axis(other, p);
    let lane = m.lane(a, p);
    let n = l.shape[a];
    assert(l.shape.remove(a) =~= seq![l.shape[other]]);
    assert(l.shape.remove(other) =~= seq![n]);
    assert(l.strides.remove(other) =~= seq![1int]);
    lemma_product_single(l.shape.remove(a));
    lemma_product_single(l.shape.remove(other));
    lemma_product_remove(l.shape, other);
    lemma_product_nonnegative(l.shape);
    assert(part.layout.shape =~= seq![n]);
    assert(part.layout.strides =~= seq![1int]);
    assert(part.layout.size() == n);
    assert(part.layout.is_row_major()) by {
        assert(part.layout.shape.skip(1) =~= Seq::<int>::empty());
    }
    if n > 0 {
        assert(l.size() > 0) by (nonlinear_arith)
            requires
                l.size() == n * l.shape[other],
                n > 0,
                l.shape[other] > 0,
        ;
        assert(unravel(l.shape.remove(a), p) =~= seq![p]) by {
            let s = l.shape.remove(a);
            assert(s.drop_last() =~= Seq::<int>::empty());
            assert(unravel(s.drop_last(), p / s.last()) =~= Seq::<int>::empty());
            assert(p % s.last() == p) by (nonlinear_arith)
                requires
                    0 <= p < s.last(),
            ;
        }
        lemma_index_axis_fits(l, other, p, m.buf.len() as int);
        crate::layout::lemma_contiguous_range(part.layout, m.buf.len() as int);
        assert forall|i: int| 0 <= i < n implies part.memory()[i] == #[trigger] lane[i] by {
            let one = seq![i];
            assert(within(one, l.shape.remove(other)));
            lemma_index_axis(l, other, p, one);
            assert(one.insert(other, p) =~= seq![p].insert(a, i));
            assert(one.drop_last() =~= Seq::<int>::empty());
            assert(dot(one.drop_last(), part.layout.strides.drop_last()) == 0);
            assert(dot(one, part.layout.strides) == 0 + i * 1);
        }
        assert(part.memory() =~= lane);
    } else {
        assert(part.memory() =~= lane);
    }
}

fn filled<A: Copy>(n: usize, x: A) -> (v: Vec<A>)
    ensures
        v@ == Seq::new(n as nat, |i: int| x),
{
    let mut v: Vec<A> = Vec::new();
    let mut i: usize = 0;
    while i < n
        invariant
            i <= n,
            v@ == Seq::new(i as nat, |j: int| x),
        decreases n - i,
    {
        v.push(x);
        proof {
            assert(v@ =~= Seq::new((i + 1) as nat, |j: int| x));
        }
        i += 1;
    }
    v
}

impl<'a, A> ArrayBase<'a, A> {
    /// The sums along one axis: an array with that axis removed, in which
    /// each element is the sum of one lane. In a matrix whose lanes along
    /// the axis are slices of the buffer each lane is summed as a slice;
    /// otherwise the parts along the axis are added up one after the other.
    pub fn sum_axis(&self, axis: Axis) -> (r: ArrayBase<'static, A>) where A: Numeric
        requires
            axis.0 < self@.layout.ndim(),
        ensures
            valid(r@),
            r@.layout == Layout::standard(self@.layout.shape.remove(axis.0 as int)),
            r@.buf == self@.sum_axis(axis.0 as int),
    {
        let ghost m = self@;
        let ghost l = m.layout;
        let ghost a = axis.0 as int;
        let dim = self.raw_dim();
        let n = dim.len_of(axis);
        let stride = dim.stride_of(axis);
        let out_dim = dim.remove_axis(axis).to_standard();
        let size = out_dim.size();
        let mut res: Vec<A> = filled(size, A::zero());
        proof {
            lemma_standard_fits(l.shape.remove(a));
        }
        if dim.ndim() == 2 && stride == 1 {
            let ax = axis.index();
            let mut p: usize = 0;
            while p < size
                invariant
                    p <= size,
                    res.len() == size,
                    m == self@,
                    l == m.layout,
                    valid(m),
                    a == ax,
                    0 <= a < 2,
                    l.ndim() == 2,
                    l.strides[a] == 1,
                    size == product(l.shape.remove(a)),
                    forall|q: int| 0 <= q < p ==> #[trigger] res[q] == m.lane_sum(a, q),
                decreases size - p,
            {
                proof {
                    assert(l.shape.remove(a) =~= seq![l.shape[1 - a]]);
                    lemma_product_single(l.shape.remove(a));
                    lemma_matrix_lane(m, a, p as int, Monoid::Sum);
                }
                let part = self.index_axis(Axis(1 - ax), p);
                res.set(p, part.sum());
                p += 1;
            }
        } else {
            let mut i: usize = 0;
            while i < n
                invariant
                    i <= n,
                    res.len() == size,
                    m == self@,
                    l == m.layout,
                    valid(m),
                    0 <= a < l.ndim(),
                    a == axis.0,
                    n == l.shape[a],
                    !m.lanes_are_slices(a),
                    size == product(l.shape.remove(a)),
                    forall|q: int|
                        0 <= q < size ==> #[trigger] res[q] == fold(
                            Monoid::Sum,
                            A::zero_spec(),
                            m.lane(a, q).take(i as int),
                        ),
                decreases n - i,
            {
                let part = self.index_axis(axis, i);
                let data = part.raw_data();
                let mut it = Offsets::new(part.raw_dim(), data.len());
                let mut p: usize = 0;
                while p < size
                    invariant
                        p <= size,
                        res.len() == size,
                        l == m.layout,
                        valid(m),
                        0 <= a < l.ndim(),
                        0 <= i < l.shape[a],
                        size == product(l.shape.remove(a)),
                        part@ == m.index_axis(a, i as int),
                        valid(part@),
                        data@ == part@.buf,
                        it.wf(),
                        it.layout() == part@.layout,
                        it.count() == p,
                        forall|q: int|
                            0 <= q < p ==> #[trigger] res[q] == fold(
                                Monoid::Sum,
                                A::zero_spec(),
                                m.lane(a, q).take(i + 1),
                            ),
                        forall|q: int|
                            p <= q < size ==> #[trigger] res[q] == fold(
                                Monoid::Sum,
                                A::zero_spec(),
                                m.lane(a, q).take(i as int),
                            ),
                    decreases size - p,
                {
                    proof {
                        lemma_index_axis_at(m, a, i as int, p as int);
                        lemma_product_remove(l.shape, a);
                        lemma_unravel_within(part@.layout.shape, p as int);
                        assert(m.lane(a, p as int).take(i + 1).drop_last() =~= m.lane(
                            a,
                            p as int,
                        ).take(i as int));
                    }
                    let pos = it.next().unwrap();
                    let sum = res[p].add(data[pos]);
                    res.set(p, sum);
                    p += 1;
                }
                i += 1;
            }
            proof {
                assert forall|q: int| 0 <= q < size implies #[trigger] res[q] == m.lane_sum(
                    a,
                    q,
                ) by {
                    assert(m.lane(a, q).take(n as int) =~= m.lane(a, q));
                }
            }
        }
        proof {
            assert(res@ =~= m.sum_axis(a));
        }
        ArrayBase::from_parts(out_dim, res)
    }

    /// The means along one axis: the sums along it, each divided by the
    /// extent of the axis; `None` where the axis has no index. The extent
    /// must be one that the element type can hold and divide by.
    pub fn mean_axis(&self, axis: Axis) -> (r: Option<ArrayBase<'static, A>>) where A: Numeric
        requires
            axis.0 < self@.layout.ndim(),
            self@.layout.shape[axis.0 as int] > 0 ==> self@.axis_count(axis.0 as int).is_some()
                && self@.axis_count(axis.0 as int).unwrap().divides(),
        ensures
            match r {
                Some(means) => {
                    &&& valid(means@)
                    &&& means@.layout == Layout::standard(
                        self@.layout.shape.remove(axis.0 as int),
                    )
                    &&& Some(means@.buf) == self@.mean_axis(axis.0 as int)
                },
                None => self@.mean_axis(axis.0 as int).is_none(),
            },
    {
        let ghost m = self@;
        let ghost a = axis.0 as int;
        let n = self.len_of(axis);
        if n == 0 {
            None
        } else {
            let count = A::from_usize(n).unwrap();
            let sums = self.sum_axis(axis);
            let out_dim = sums.raw_dim().duplicate();
            let data = sums.raw_data();
            let size = data.len();
            let mut res: Vec<A> = Vec::new();
            let mut p: usize = 0;
            proof {
                lemma_standard_fits(m.layout.shape.remove(a));
                lemma_product_nonnegative(m.layout.shape.remove(a));
            }
            while p < size
                invariant
                    p <= size,
                    size == data.len(),
                    res.len() == p,
                    count.divides(),
                    data@ == m.sum_axis(a),
                    Some(count) == m.axis_count(a),
                    forall|q: int|
                        0 <= q < p ==> #[trigger] res[q] == m.lane_sum(a, q).div_spec(count),
                decreases size - p,
            {
                res.push(data[p].div(count));
                p += 1;
            }
            proof {
                assert(res@ =~= m.mean_axis(a).unwrap());
            }
            Some(ArrayBase::from_parts(out_dim, res))
        }
    }
}

/// The count `k` as an element.
pub open spec fn number<A: Numeric>(k: int) -> A {
    A::from_usize_spec(k as usize).unwrap()
}

/// One step of the streaming variance: the running mean and the running sum
/// of squared deviations after one more value `x`, the `count`-th.
pub open spec fn welford_step<A: Real>(state: (A, A), x: A, count: A) -> (A, A) {
    let delta = x.sub_spec(state.0);
    let mean = state.0.add_spec(delta.div_spec(count));
    (mean, x.sub_spec(mean).mul_add_spec(delta, state.1))
}

/// The running mean and the running sum of squared deviations of `xs`,
/// taken in one pass from the left.
pub open spec fn welford<A: Real>(xs: Seq<A>) -> (A, A)
    decreases xs.len(),
{
    if xs.len() == 0 {
        (A::zero_spec(), A::zero_spec())
    } else {
        welford_step(welford(xs.drop_last()), xs.last(), number::<A>(xs.len() as int))
    }
}

impl<A: Real> ArrayModel<A> {
    /// The extent of axis `a` less `ddof`: what the sum of squared
    /// deviations is divided by.
    pub open spec fn freedom(self, a: int, ddof: A) -> A {
        number::<A>(self.layout.shape[a]).sub_spec(ddof)
    }

    /// Every count up to the extent of axis `a` is an element, and each but 0
    /// one to divide by.
    pub open spec fn countable(self, a: int) -> bool {
        &&& forall|k: int|
            0 <= k <= self.layout.shape[a] ==> (#[trigger] A::from_usize_spec(k as usize)).is_some()
        &&& forall|k: int| 1 <= k <= self.layout.shape[a] ==> (#[trigger] number::<A>(k)).divides()
    }

    /// `ddof` is neither less than 0 nor greater than the extent of axis `a`.
    pub open spec fn admits(self, a: int, ddof: A) -> bool {
        !ddof.is_lt(&number::<A>(0)) && !ddof.is_gt(&number::<A>(self.layout.shape[a]))
    }

    /// The variances along axis `a`, in row-major order of the other axes.
    pub open spec fn var_axis(self, a: int, ddof: A) -> Seq<A> {
        Seq::new(
            product(self.layout.shape.remove(a)) as nat,
            |p: int| welford(self.lane(a, p)).1.div_spec(self.freedom(a, ddof)),
        )
    }

    /// The standard deviations along axis `a`, in row-major order of the
    /// other axes.
    pub open spec fn std_axis(self, a: int, ddof: A) -> Seq<A> {
        Seq::new(
            product(self.layout.shape.remove(a)) as nat,
            |p: int| self.var_axis(a, ddof)[p].sqrt_spec(),
        )
    }
}

impl<'a, A> ArrayBase<'a, A> {
    /// The variances along one axis, by the one-pass method of Welford: the
    /// parts along the axis are taken one after the other, each updating a
    /// running mean and a running sum of squared deviations, and the sums
    /// are at last divided by the extent of the axis less `ddof`.
    pub fn var_axis(&self, axis: Axis, ddof: A) -> (r: ArrayBase<'static, A>) where A: Real
        requires
            axis.0 < self@.layout.ndim(),
            self@.countable(axis.0 as int),
            self@.admits(axis.0 as int, ddof),
            self@.freedom(axis.0 as int, ddof).divides(),
        ensures
            valid(r@),
            r@.layout == Layout::standard(self@.layout.shape.remove(axis.0 as int)),
            r@.buf == self@.var_axis(axis.0 as int, ddof),
    {
        let ghost m = self@;
        let ghost l = m.layout;
        let ghost a = axis.0 as int;
        let dim = self.raw_dim();
        let n = dim.len_of(axis);
        assert(A::from_usize_spec(n).is_some());
        let dof = A::from_usize(n).unwrap().sub(ddof);
        let out_dim = dim.remove_axis(axis).to_standard();
        let size = out_dim.size();
        let mut mean: Vec<A> = filled(size, A::zero());
        let mut sum_sq: Vec<A> = filled(size, A::zero());
        proof {
            lemma_standard_fits(l.shape.remove(a));
        }
        let mut i: usize = 0;
        while i < n
            invariant
                i <= n,
                n <= isize::MAX,
                mean.len() == size,
                sum_sq.len() == size,
                m == self@,
                l == m.layout,
                valid(m),
                0 <= a < l.ndim(),
                a == axis.0,
                n == l.shape[a],
                m.countable(a),
                size == product(l.shape.remove(a)),
                forall|q: int|
                    0 <= q < size ==> (#[trigger] mean[q], sum_sq[q]) == welford(
                        m.lane(a, q).take(i as int),
                    ),
            decreases n - i,
        {
            assert(A::from_usize_spec((i + 1) as usize).is_some());
            assert(number::<A>(i + 1).divides());
            let count = A::from_usize(i + 1).unwrap();
            let part = self.index_axis(axis, i);
            let data = part.raw_data();
            let mut it = Offsets::new(part.raw_dim(), data.len());
            let mut p: usize = 0;
            while p < size
                invariant
                    p <= size,
                    mean.len() == size,
                    sum_sq.len() == size,
                    l == m.layout,
                    valid(m),
                    0 <= a < l.ndim(),
                    0 <= i < l.shape[a],
                    size == product(l.shape.remove(a)),
                    count == number::<A>(i + 1),
                    count.divides(),
                    part@ == m.index_axis(a, i as int),
                    valid(part@),
                    data@ == part@.buf,
                    it.wf(),
                    it.layout() == part@.layout,
                    it.count() == p,
                    forall|q: int|
                        0 <= q < p ==> (#[trigger] mean[q], sum_sq[q]) == welford(
                            m.lane(a, q).take(i + 1),
                        ),
                    forall|q: int|
                        p <= q < size ==> (#[trigger] mean[q], sum_sq[q]) == welford(
                            m.lane(a, q).take(i as int),
                        ),
                decreases size - p,
            {
                proof {
                    lemma_index_axis_at(m, a, i as int, p as int);
                    lemma_product_remove(l.shape, a);
                    lemma_unravel_within(part@.layout.shape, p as int);
                    assert(m.lane(a, p as int).take(i + 1).drop_last() =~= m.lane(a, p as int).take(
                        i as int,
                    ));
                }
                let pos = it.next().unwrap();
                let x = data[pos];
                let delta = x.sub(mean[p]);
                let centre = mean[p].add(delta.div(count));
                let spread = x.sub(centre).mul_add(delta, sum_sq[p]);
                mean.set(p, centre);
                sum_sq.set(p, spread);
                p += 1;
            }
            i += 1;
        }
        let ghost sums = sum_sq@;
        let totals = ArrayBase::from_parts(out_dim, sum_sq);
        let spread = |s: A| -> (r: A)
            requires
                dof.divides(),
            ensures
                r == s.div_spec(dof),
            { s.div(dof) };
        let res = totals.mapv_into(spread);
        proof {
            lemma_product_nonnegative(l.shape.remove(a));
            assert forall|q: int| 0 <= q < size implies #[trigger] res@.buf[q] == m.var_axis(
                a,
                ddof,
            )[q] by {
                assert(m.lane(a, q).take(n as int) =~= m.lane(a, q));
                assert((mean[q], sums[q]) == welford(m.lane(a, q)));
                assert(Layout::standard(l.shape.remove(a)).position_at(q) == q);
                assert(call_ensures(spread, (sums[q],), res@.at(q)));
            }
            assert(res@.buf =~= m.var_axis(a, ddof));
        }
        res
    }

    /// The standard deviations along one axis: the square roots of the
    /// variances along it.
    pub fn std_axis(&self, axis: Axis, ddof: A) -> (r: ArrayBase<'static, A>) where A: Real
        requires
            axis.0 < self@.layout.ndim(),
            self@.countable(axis.0 as int),
            self@.admits(axis.0 as int, ddof),
            self@.freedom(axis.0 as int, ddof).divides(),
            forall|p: int|
                0 <= p < product(self@.layout.shape.remove(axis.0 as int)) ==> (
                #[trigger] self@.var_axis(axis.0 as int, ddof)[p]).has_sqrt(),
        ensures
            valid(r@),
            r@.layout == Layout::standard(self@.layout.shape.remove(axis.0 as int)),
            r@.buf == self@.std_axis(axis.0 as int, ddof),
    {
        let ghost m = self@;
        let ghost a = axis.0 as int;
        let var = self.var_axis(axis, ddof);
        proof {
            lemma_standard_fits(m.layout.shape.remove(a));
            lemma_product_nonnegative(m.layout.shape.remove(a));
        }
        let root = |x: A| -> (r: A)
            requires
                x.has_sqrt(),
            ensures
                r == x.sqrt_spec(),
            { x.sqrt() };
        let ghost v = var@;
        let res = var.mapv_into(root);
        proof {
            let size = product(m.layout.shape.remove(a));
            assert(v.layout.size() == size);
            assert forall|k: int| 0 <= k < size implies #[trigger] res@.buf[k] == m.std_axis(
                a,
                ddof,
            )[k] by {
                assert(v.layout.position_at(k) == k);
                assert(res@.layout.position_at(k) == k);
                assert(call_ensures(root, (v.at(k),), res@.at(k)));
            }
            assert(res@.buf =~= m.std_axis(a, ddof));
        }
        res
    }
}

} // verus!
