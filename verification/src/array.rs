//! The array itself: a buffer, owned or borrowed, read through a dimension.

use vstd::prelude::*;
use vstd::slice::slice_subrange;
use crate::dimension::Axis;
use crate::dimension::Dimension;
use crate::dimension::ShapeError;
use crate::dimension::bounded;
use crate::dimension::extents;
use crate::iter::Offsets;
use crate::layout::Layout;
use crate::layout::capacity;
use crate::layout::dot;
use crate::layout::is_shape;
use crate::layout::lemma_contiguous_range;
use crate::layout::lemma_dot_origin;
use crate::layout::lemma_dot_padded;
use crate::layout::lemma_nested_injective;
use crate::layout::lemma_part_fits;
use crate::layout::lemma_positions_distinct;
use crate::layout::lemma_product_nonnegative;
use crate::layout::lemma_product_remove;
use crate::layout::lemma_reversed_axes_fits;
use crate::layout::lemma_run_fits;
use crate::layout::lemma_standard_fits;
use crate::layout::lemma_unravel_within;
use crate::layout::origin;
use crate::layout::place;
use crate::layout::product;
use crate::layout::ravel;
use crate::layout::unravel;
use crate::layout::within;

verus! {

/// The buffer behind an array: its own, or one that it borrows.
pub enum Storage<'a, A> {
    Owned(Vec<A>),
    Borrowed(&'a [A]),
}

impl<'a, A> View for Storage<'a, A> {
    type V = Seq<A>;

    open spec fn view(&self) -> Seq<A> {
        match self {
            Storage::Owned(v) => v@,
            Storage::Borrowed(s) => s@,
        }
    }
}

impl<'a, A> Storage<'a, A> {
    /// The elements of the buffer, in memory order.
    pub fn as_slice(&self) -> (s: &[A])
        ensures
            s@ == self@,
    {
        match self {
            Storage::Owned(v) => v.as_slice(),
            Storage::Borrowed(s) => s,
        }
    }
}

/// An array as a mathematical value: the buffer and the layout through which
/// it is read.
pub struct ArrayModel<A> {
    pub buf: Seq<A>,
    pub layout: Layout,
}

impl<A> ArrayModel<A> {
    /// The element at a logical index.
    pub open spec fn elem(self, idx: Seq<int>) -> A {
        self.buf[self.layout.position(idx)]
    }

    /// The `k`-th element in row-major order.
    pub open spec fn at(self, k: int) -> A {
        self.buf[self.layout.position_at(k)]
    }

    /// All elements in row-major order of their indices.
    pub open spec fn flat(self) -> Seq<A> {
        Seq::new(self.layout.size() as nat, |k: int| self.at(k))
    }

    /// The stretch of the buffer that a contiguous array fills.
    pub open spec fn memory(self) -> Seq<A> {
        if self.layout.size() == 0 {
            Seq::empty()
        } else {
            self.buf.subrange(self.layout.offset, self.layout.offset + self.layout.size())
        }
    }

    /// The part at index `i` of axis `a`, on the same buffer.
    pub open spec fn index_axis(self, a: int, i: int) -> ArrayModel<A> {
        ArrayModel { buf: self.buf, layout: self.layout.part(a, i) }
    }

    /// The run of `len` indices of axis `a` from `start` on, on the same
    /// buffer.
    pub open spec fn slice_axis(self, a: int, start: int, len: int) -> ArrayModel<A> {
        ArrayModel { buf: self.buf, layout: self.layout.run(a, start, len) }
    }

    /// The run of elements along axis `a` whose other coordinates are those
    /// of the `p`-th index, in row-major order, of the shape without `a`.
    pub open spec fn lane(self, a: int, p: int) -> Seq<A> {
        Seq::new(
            self.layout.shape[a] as nat,
            |i: int| self.elem(unravel(self.layout.shape.remove(a), p).insert(a, i)),
        )
    }

    /// The same elements with the order of the axes reversed.
    pub open spec fn reversed_axes(self) -> ArrayModel<A> {
        ArrayModel { buf: self.buf, layout: self.layout.reversed_axes() }
    }
}

/// What holds of every array: its layout is bounded, and each of its
/// elements lies in its buffer.
pub open spec fn valid<A>(m: ArrayModel<A>) -> bool {
    &&& bounded(m.layout)
    &&& m.layout.fits(m.buf.len() as int)
    &&& m.buf.len() <= isize::MAX
}

/// An n-dimensional array: a buffer and the dimension through which it is
/// read. Arrays made from a `Vec` own their buffer; views borrow theirs.
pub struct ArrayBase<'a, A> {
    data: Storage<'a, A>,
    dim: Dimension,
}

impl<'a, A> View for ArrayBase<'a, A> {
    type V = ArrayModel<A>;

    closed spec fn view(&self) -> ArrayModel<A> {
        ArrayModel { buf: self.data@, layout: self.dim@ }
    }
}

impl<'a, A> ArrayBase<'a, A> {
    #[verifier::type_invariant]
    spec fn inv(&self) -> bool {
        &&& self.dim@.fits(self.data@.len() as int)
        &&& self.data@.len() <= isize::MAX
    }

    /// An array of the given shape that owns `data`, read in row-major
    /// order.
    pub fn from_shape_vec(shape: &[usize], data: Vec<A>) -> (r: Result<
        ArrayBase<'static, A>,
        ShapeError,
    >)
        ensures
            match r {
                Ok(a) => {
                    &&& a@.buf == data@
                    &&& a@.layout == Layout::standard(extents(shape@))
                    &&& a@.layout.size() == data.len()
                    &&& valid(a@)
                },
                Err(e) => if capacity(extents(shape@)) > isize::MAX {
                    e == ShapeError::Overflow
                } else {
                    e == ShapeError::IncompatibleShape && product(extents(shape@)) != data.len()
                },
            },
    {
        match Dimension::from_shape(shape) {
            Err(e) => Err(e),
            Ok(dim) => {
                if dim.size() != data.len() {
                    Err(ShapeError::IncompatibleShape)
                } else {
                    proof {
                        lemma_standard_fits(extents(shape@));
                    }
                    Ok(ArrayBase { data: Storage::Owned(data), dim })
                }
            },
        }
    }

    /// An array of the given shape in which every element is `value`.
    pub fn from_elem(shape: &[usize], value: A) -> (r: Result<ArrayBase<'static, A>, ShapeError>)
        where A: Copy
        ensures
            match r {
                Ok(a) => {
                    &&& a@.layout == Layout::standard(extents(shape@))
                    &&& a@.buf == Seq::new(product(extents(shape@)) as nat, |i: int| value)
                    &&& valid(a@)
                },
                Err(e) => e == ShapeError::Overflow && capacity(extents(shape@)) > isize::MAX,
            },
    {
        match Dimension::from_shape(shape) {
            Err(e) => Err(e),
            Ok(dim) => {
                let size = dim.size();
                let mut data: Vec<A> = Vec::new();
                let mut i: usize = 0;
                while i < size
                    invariant
                        i <= size,
                        data@ == Seq::new(i as nat, |j: int| value),
                    decreases size - i,
                {
                    data.push(value);
                    proof {
                        assert(data@ =~= Seq::new((i + 1) as nat, |j: int| value));
                    }
                    i += 1;
                }
                proof {
                    lemma_standard_fits(extents(shape@));
                }
                Ok(ArrayBase { data: Storage::Owned(data), dim })
            },
        }
    }

    /// A view of the given shape on `data`, read in row-major order.
    pub fn from_shape_slice(shape: &[usize], data: &'a [A]) -> (r: Result<
        ArrayBase<'a, A>,
        ShapeError,
    >)
        ensures
            match r {
                Ok(a) => {
                    &&& a@.buf == data@
                    &&& a@.layout == Layout::standard(extents(shape@))
                    &&& a@.layout.size() == data.len()
                    &&& valid(a@)
                },
                Err(e) => if capacity(extents(shape@)) > isize::MAX {
                    e == ShapeError::Overflow
                } else {
                    e == ShapeError::IncompatibleShape && product(extents(shape@)) != data.len()
                },
            },
    {
        match Dimension::from_shape(shape) {
            Err(e) => Err(e),
            Ok(dim) => {
                if dim.size() != data.len() {
                    Err(ShapeError::IncompatibleShape)
                } else {
                    proof {
                        lemma_standard_fits(extents(shape@));
                    }
                    Ok(ArrayBase { data: Storage::Borrowed(data), dim })
                }
            },
        }
    }

    /// An array that owns `data` and reads it through `dim`.
    pub fn from_parts(dim: Dimension, data: Vec<A>) -> (r: ArrayBase<'static, A>)
        requires
            dim@.fits(data@.len() as int),
            data@.len() <= isize::MAX,
        ensures
            r@.buf == data@,
            r@.layout == dim@,
            valid(r@),
    {
        proof {
            use_type_invariant(&dim);
            dim.lemma_bounded();
        }
        ArrayBase { data: Storage::Owned(data), dim }
    }

    /// A view that reads `data` through `dim`.
    pub fn view_from_parts(dim: Dimension, data: &'a [A]) -> (r: ArrayBase<'a, A>)
        requires
            dim@.fits(data@.len() as int),
            data@.len() <= isize::MAX,
        ensures
            r@.buf == data@,
            r@.layout == dim@,
            valid(r@),
    {
        proof {
            use_type_invariant(&dim);
            dim.lemma_bounded();
        }
        ArrayBase { data: Storage::Borrowed(data), dim }
    }

    /// An array that owns `data` and reads it through `dim`. Fails where
    /// some element would lie outside `data`.
    pub fn from_dim_vec(dim: Dimension, data: Vec<A>) -> (r: Result<
        ArrayBase<'static, A>,
        ShapeError,
    >)
        ensures
            match r {
                Ok(a) => a@.buf == data@ && a@.layout == dim@ && valid(a@),
                Err(e) => if data@.len() > isize::MAX {
                    e == ShapeError::Overflow
                } else {
                    e == ShapeError::OutOfBounds && !dim@.fits(data@.len() as int)
                },
            },
    {
        if data.len() > isize::MAX as usize {
            Err(ShapeError::Overflow)
        } else if !dim.fits(data.len()) {
            Err(ShapeError::OutOfBounds)
        } else {
            Ok(ArrayBase::from_parts(dim, data))
        }
    }

    /// A view that reads `data` through `dim`. Fails where some element
    /// would lie outside `data`.
    pub fn from_dim_slice(dim: Dimension, data: &'a [A]) -> (r: Result<
        ArrayBase<'a, A>,
        ShapeError,
    >)
        ensures
            match r {
                Ok(a) => a@.buf == data@ && a@.layout == dim@ && valid(a@),
                Err(e) => if data@.len() > isize::MAX {
                    e == ShapeError::Overflow
                } else {
                    e == ShapeError::OutOfBounds && !dim@.fits(data@.len() as int)
                },
            },
    {
        if data.len() > isize::MAX as usize {
            Err(ShapeError::Overflow)
        } else if !dim.fits(data.len()) {
            Err(ShapeError::OutOfBounds)
        } else {
            Ok(ArrayBase::view_from_parts(dim, data))
        }
    }

    /// The dimension through which the buffer is read.
    pub fn raw_dim(&self) -> (d: &Dimension)
        ensures
            d@ == self@.layout,
            valid(self@),
    {
        proof {
            use_type_invariant(self);
            use_type_invariant(&self.dim);
            self.dim.lemma_bounded();
        }
        &self.dim
    }

    /// The whole buffer, in memory order.
    pub fn raw_data(&self) -> (s: &[A])
        ensures
            s@ == self@.buf,
            valid(self@),
    {
        proof {
            use_type_invariant(self);
            use_type_invariant(&self.dim);
            self.dim.lemma_bounded();
        }
        self.data.as_slice()
    }

    /// The number of axes.
    pub fn ndim(&self) -> (n: usize)
        ensures
            n == self@.layout.ndim(),
    {
        self.dim.ndim()
    }

    /// The number of elements.
    pub fn len(&self) -> (n: usize)
        ensures
            n == self@.layout.size(),
    {
        self.dim.size()
    }

    /// Whether the array has no elements.
    pub fn is_empty(&self) -> (b: bool)
        ensures
            b == (self@.layout.size() == 0),
    {
        self.dim.size() == 0
    }

    /// The extent of one axis.
    pub fn len_of(&self, axis: Axis) -> (n: usize)
        requires
            axis.0 < self@.layout.ndim(),
        ensures
            n == self@.layout.shape[axis.0 as int],
    {
        self.dim.len_of(axis)
    }

    /// The extent of each axis.
    pub fn shape(&self) -> (s: &[usize])
        ensures
            extents(s@) == self@.layout.shape,
    {
        self.dim.shape()
    }

    /// The stride of each axis, in elements.
    pub fn strides(&self) -> (s: &[isize])
        ensures
            crate::dimension::steps(s@) == self@.layout.strides,
    {
        self.dim.strides()
    }

    /// A view of the same elements.
    pub fn as_view<'b>(&'b self) -> (r: ArrayBase<'b, A>)
        ensures
            r@ == self@,
    {
        proof {
            use_type_invariant(self);
        }
        let dim = self.dim.duplicate();
        ArrayBase { data: Storage::Borrowed(self.data.as_slice()), dim }
    }
    /// The part of the array at index `i` of an axis: a view with one axis
    /// less on the same buffer.
    pub fn index_axis<'b>(&'b self, axis: Axis, i: usize) -> (r: ArrayBase<'b, A>)
        requires
            axis.0 < self@.layout.ndim(),
            i < self@.layout.shape[axis.0 as int],
        ensures
            r@ == self@.index_axis(axis.0 as int, i as int),
            valid(r@),
    {
        proof {
            use_type_invariant(self);
            use_type_invariant(&self.dim);
            self.dim.lemma_bounded();
            lemma_part_fits(self.dim@, axis.0 as int, i as int, self.data@.len() as int);
        }
        let dim = self.dim.index_axis(axis, i);
        ArrayBase { data: Storage::Borrowed(self.data.as_slice()), dim }
    }

    /// The run of `len` indices of an axis from `start` on: a view with the
    /// same axes on the same buffer.
    pub fn slice_axis<'b>(&'b self, axis: Axis, start: usize, len: usize) -> (r: ArrayBase<'b, A>)
        requires
            axis.0 < self@.layout.ndim(),
            start + len <= self@.layout.shape[axis.0 as int],
        ensures
            r@ == self@.slice_axis(axis.0 as int, start as int, len as int),
            valid(r@),
    {
        proof {
            use_type_invariant(self);
            use_type_invariant(&self.dim);
            self.dim.lemma_bounded();
            lemma_run_fits(
                self.dim@,
                axis.0 as int,
                start as int,
                len as int,
                self.data@.len() as int,
            );
        }
        let dim = self.dim.slice_axis(axis, start, len);
        ArrayBase { data: Storage::Borrowed(self.data.as_slice()), dim }
    }

    /// A view of the same elements with the order of the axes reversed: the
    /// transpose.
    pub fn reversed_axes<'b>(&'b self) -> (r: ArrayBase<'b, A>)
        ensures
            r@ == self@.reversed_axes(),
            valid(r@),
    {
        proof {
            use_type_invariant(self);
            use_type_invariant(&self.dim);
            self.dim.lemma_bounded();
        }
        let dim = self.dim.reversed_axes();
        proof {
            lemma_reversed_axes_fits(self.dim@, self.data@.len() as int);
        }
        ArrayBase { data: Storage::Borrowed(self.data.as_slice()), dim }
    }

    /// The element at a logical index, or `None` where the index is not one
    /// of this array.
    pub fn get(&self, idx: &[usize]) -> (r: Option<&A>)
        ensures
            match r {
                Some(x) => within(extents(idx@), self@.layout.shape) && *x == self@.elem(
                    extents(idx@),
                ),
                None => !within(extents(idx@), self@.layout.shape),
            },
    {
        proof {
            use_type_invariant(self);
        }
        let ghost l = self.dim@;
        let ghost ix = extents(idx@);
        let shape = self.dim.shape();
        let strides = self.dim.strides();
        let data = self.data.as_slice();
        let n = shape.len();
        if idx.len() != n {
            return None;
        }
        let mut i: usize = 0;
        while i < n
            invariant
                i <= n,
                n == idx.len(),
                n == shape.len(),
                extents(shape@) == l.shape,
                l == self@.layout,
                ix == extents(idx@),
                forall|j: int| 0 <= j < i ==> 0 <= #[trigger] ix[j] < l.shape[j],
            decreases n - i,
        {
            if idx[i] >= shape[i] {
                proof {
                    assert(l.shape[i as int] == shape[i as int]);
                    assert(ix[i as int] == idx[i as int]);
                    assert(!(ix[i as int] < l.shape[i as int]));
                    assert(!within(ix, l.shape));
                }
                return None;
            }
            proof {
                assert(l.shape[i as int] == shape[i as int]);
            }
            i += 1;
        }
        assert(within(ix, l.shape));
        let mut pos: usize = self.dim.offset();
        let mut k: usize = 0;
        proof {
            assert(ix.take(0) + origin(n as nat) =~= origin(n as nat));
            assert forall|j: int| 0 <= j < n implies 0 <= #[trigger] origin(n as nat)[j]
                < l.shape[j] by {
                assert(0 <= ix[j] < l.shape[j]);
            }
            assert(within(origin(n as nat), l.shape));
            lemma_dot_origin(n as nat, l.strides);
        }
        while k < n
            invariant
                k <= n,
                n == idx.len(),
                n == strides.len(),
                l.wf(),
                n == l.shape.len(),
                crate::dimension::steps(strides@) == l.strides,
                ix == extents(idx@),
                within(ix, l.shape),
                l.fits(data@.len() as int),
                data@.len() <= isize::MAX,
                pos == l.offset + dot(ix.take(k as int), l.strides.take(k as int)),
                0 <= pos < data@.len(),
            decreases n - k,
        {
            proof {
                let next = ix.take(k + 1);
                let padded = next + origin((n - k - 1) as nat);
                assert forall|j: int| 0 <= j < n implies 0 <= #[trigger] padded[j] < l.shape[j] by {
                    if j <= k {
                        assert(0 <= ix[j] < l.shape[j]);
                    } else {
                        lemma_product_nonnegative(l.shape);
                        assert(0 <= ix[j] < l.shape[j]);
                    }
                }
                assert(within(padded, l.shape));
                lemma_dot_padded(next, (n - k - 1) as nat, l.strides);
                assert(next.drop_last() =~= ix.take(k as int));
                assert(l.strides.take(k + 1).drop_last() =~= l.strides.take(k as int));
                assert(l.strides[k as int] == strides[k as int]);
                assert(dot(next, l.strides.take(k + 1)) == dot(
                    ix.take(k as int),
                    l.strides.take(k as int),
                ) + idx[k as int] * strides[k as int]);
            }
            let wide: i128 = pos as i128 + (idx[k] as i128) * (strides[k] as i128);
            pos = wide as usize;
            k += 1;
        }
        proof {
            assert(ix.take(n as int) =~= ix);
            assert(l.strides.take(n as int) =~= l.strides);
        }
        Some(&data[pos])
    }

    /// The first element in row-major order, or `None` in an array without
    /// elements.
    pub fn first(&self) -> (r: Option<&A>)
        ensures
            match r {
                Some(x) => self@.layout.size() > 0 && *x == self@.at(0),
                None => self@.layout.size() == 0,
            },
    {
        proof {
            use_type_invariant(self);
            use_type_invariant(&self.dim);
            self.dim.lemma_bounded();
        }
        let ghost l = self.dim@;
        if self.dim.size() == 0 {
            None
        } else {
            proof {
                lemma_product_nonnegative(l.shape);
                let z = origin(l.ndim());
                assert(within(z, l.shape));
                lemma_dot_origin(l.ndim(), l.strides);
                crate::layout::lemma_unravel_origin(l.shape);
            }
            let data = self.data.as_slice();
            Some(&data[self.dim.offset()])
        }
    }

    /// The elements as one slice in row-major order, where they lie so in
    /// the buffer; `None` otherwise.
    pub fn as_slice(&self) -> (r: Option<&[A]>)
        ensures
            match r {
                Some(s) => self@.layout.is_row_major() && s@ == self@.memory(),
                None => !self@.layout.is_row_major(),
            },
    {
        if self.dim.is_standard_layout() {
            Some(self.memory())
        } else {
            None
        }
    }

    /// The elements as one slice in the order in which they lie in the
    /// buffer, where they lie side by side; `None` otherwise.
    pub fn as_slice_memory_order(&self) -> (r: Option<&[A]>)
        ensures
            match r {
                Some(s) => self@.layout.is_contiguous() && s@ == self@.memory(),
                None => !self@.layout.is_contiguous(),
            },
    {
        if self.dim.is_contiguous() {
            Some(self.memory())
        } else {
            None
        }
    }

    /// A fresh array of the same shape in which each element is `f` of the
    /// element at the same index.
    pub fn mapv<B, F: Fn(A) -> B>(&self, f: F) -> (r: ArrayBase<'static, B>) where A: Copy
        requires
            forall|k: int|
                0 <= k < self@.layout.size() ==> call_requires(f, (#[trigger] self@.at(k),)),
        ensures
            valid(r@),
            r@.layout == Layout::standard(self@.layout.shape),
            r@.buf.len() == self@.layout.size(),
            forall|k: int|
                0 <= k < self@.layout.size() ==> call_ensures(
                    f,
                    (self@.at(k),),
                    #[trigger] r@.buf[k],
                ),
    {
        proof {
            use_type_invariant(self);
            use_type_invariant(&self.dim);
            self.dim.lemma_bounded();
            lemma_standard_fits(self.dim@.shape);
        }
        let ghost m = self@;
        let data = self.data.as_slice();
        let size = self.dim.size();
        let mut it = Offsets::new(&self.dim, data.len());
        let mut out: Vec<B> = Vec::new();
        let mut k: usize = 0;
        while k < size
            invariant
                k <= size,
                size == m.layout.size(),
                m == self@,
                valid(m),
                data@ == m.buf,
                it.wf(),
                it.layout() == m.layout,
                it.count() == k,
                out.len() == k,
                forall|j: int| 0 <= j < size ==> call_requires(f, (#[trigger] m.at(j),)),
                forall|j: int| 0 <= j < k ==> call_ensures(f, (m.at(j),), #[trigger] out[j]),
            decreases size - k,
        {
            proof {
                lemma_unravel_within(m.layout.shape, k as int);
                assert(call_requires(f, (m.at(k as int),)));
            }
            let pos = it.next().unwrap();
            out.push(f(data[pos]));
            k += 1;
        }
        ArrayBase::from_parts(self.dim.to_standard(), out)
    }

    /// The array with each element replaced by `f` of it. An array that owns
    /// its buffer and whose axes are nested is changed in place: every
    /// element is then visited once, and none through another. Any other
    /// array gives a fresh one.
    pub fn mapv_into<F: Fn(A) -> A>(self, f: F) -> (r: ArrayBase<'static, A>) where A: Copy
        requires
            forall|k: int|
                0 <= k < self@.layout.size() ==> call_requires(f, (#[trigger] self@.at(k),)),
        ensures
            valid(r@),
            r@.layout.shape == self@.layout.shape,
            r@.layout == self@.layout && r@.buf.len() == self@.buf.len() || r@.layout
                == Layout::standard(self@.layout.shape) && r@.buf.len() == self@.layout.size(),
            forall|k: int|
                0 <= k < self@.layout.size() ==> call_ensures(
                    f,
                    (self@.at(k),),
                    #[trigger] r@.at(k),
                ),
    {
        proof {
            use_type_invariant(&self);
            use_type_invariant(&self.dim);
            self.dim.lemma_bounded();
        }
        let ghost m = self@;
        let ghost l = m.layout;
        if !self.dim.is_nested() {
            let fresh = self.mapv(f);
            proof {
                lemma_standard_fits(l.shape);
            }
            return fresh;
        }
        let ArrayBase { data, dim } = self;
        match data {
            Storage::Borrowed(s) => {
                let shared = ArrayBase::view_from_parts(dim, s);
                let fresh = shared.mapv(f);
                proof {
                    lemma_standard_fits(l.shape);
                }
                fresh
            },
            Storage::Owned(mut v) => {
                proof {
                    lemma_nested_injective(l);
                }
                let size = dim.size();
                let mut it = Offsets::new(&dim, v.len());
                let mut k: usize = 0;
                while k < size
                    invariant
                        k <= size,
                        size == l.size(),
                        l == m.layout,
                        l == dim@,
                        bounded(l),
                        l.injective(),
                        l.fits(m.buf.len() as int),
                        v@.len() == m.buf.len(),
                        m.buf.len() <= isize::MAX,
                        it.wf(),
                        it.layout() == l,
                        it.count() == k,
                        forall|j: int| 0 <= j < size ==> call_requires(f, (#[trigger] m.at(j),)),
                        forall|j: int|
                            0 <= j < k ==> call_ensures(
                                f,
                                (m.at(j),),
                                #[trigger] v@[l.position_at(j)],
                            ),
                        forall|j: int|
                            k <= j < size ==> #[trigger] v@[l.position_at(j)] == m.at(j),
                    decreases size - k,
                {
                    proof {
                        lemma_unravel_within(l.shape, k as int);
                        assert(call_requires(f, (m.at(k as int),)));
                        assert forall|j: int| 0 <= j < size && j != k implies l.position_at(j)
                            != l.position_at(k as int) && 0 <= #[trigger] l.position_at(j)
                            < v@.len() by {
                            lemma_positions_distinct(l, j, k as int);
                            lemma_unravel_within(l.shape, j);
                        }
                    }
                    let pos = it.next().unwrap();
                    let x = f(v[pos]);
                    v.set(pos, x);
                    k += 1;
                }
                proof {
                    assert forall|j: int| 0 <= j < size implies 0 <= #[trigger] l.position_at(j)
                        < v@.len() by {
                        lemma_unravel_within(l.shape, j);
                    }
                }
                ArrayBase { data: Storage::Owned(v), dim }
            },
        }
    }

    /// The stretch of the buffer that the elements fill.
    fn memory(&self) -> (s: &[A])
        requires
            self@.layout.is_contiguous(),
        ensures
            s@ == self@.memory(),
    {
        proof {
            use_type_invariant(self);
            use_type_invariant(&self.dim);
            self.dim.lemma_bounded();
        }
        let size = self.dim.size();
        let data = self.data.as_slice();
        if size == 0 {
            slice_subrange(data, 0, 0)
        } else {
            proof {
                lemma_contiguous_range(self.dim@, data@.len() as int);
            }
            let start = self.dim.offset();
            slice_subrange(data, start, start + size)
        }
    }
}

/// Reading the part at index `i` of axis `a` in row-major order gives, as its
/// `p`-th element, the element of the whole array whose index is the part's
/// `p`-th index with `i` put in at `a`.
pub proof fn lemma_index_axis_at<A>(m: ArrayModel<A>, a: int, i: int, p: int)
    requires
        m.layout.wf(),
        0 <= a < m.layout.ndim(),
        0 <= i < m.layout.shape[a],
        0 <= p < product(m.layout.shape.remove(a)),
    ensures
        m.layout.size() > 0,
        within(unravel(m.layout.shape.remove(a), p).insert(a, i), m.layout.shape),
        m.index_axis(a, i).at(p) == m.elem(unravel(m.layout.shape.remove(a), p).insert(a, i)),
        m.index_axis(a, i).at(p) == m.lane(a, p)[i],
{
    let l = m.layout;
    let sub = l.shape.remove(a);
    lemma_product_remove(l.shape, a);
    assert(product(sub) * l.shape[a] > 0) by (nonlinear_arith)
        requires
            product(sub) > 0,
            l.shape[a] > 0,
    ;
    lemma_unravel_within(sub, p);
    crate::layout::lemma_index_axis(l, a, i, unravel(sub, p));
}

/// The part of an array at index `i` of axis `a`, read in row-major order,
/// is the array's own elements with `i` at axis `a`: each of them, once, and
/// in the order in which the array itself has them.
pub proof fn lemma_index_axis_round_trip<A>(m: ArrayModel<A>, a: int, i: int)
    requires
        m.layout.wf(),
        0 <= a < m.layout.ndim(),
        0 <= i < m.layout.shape[a],
    ensures
        m.index_axis(a, i).layout.shape == m.layout.shape.remove(a),
        m.index_axis(a, i).flat().len() == product(m.layout.shape.remove(a)),
        forall|p: int|
            0 <= p < product(m.layout.shape.remove(a)) ==> {
                &&& 0 <= #[trigger] place(m.layout.shape, a, i, p) < m.layout.size()
                &&& unravel(m.layout.shape, place(m.layout.shape, a, i, p))[a] == i
                &&& m.index_axis(a, i).flat()[p] == m.flat()[place(m.layout.shape, a, i, p)]
            },
        forall|p: int, q: int|
            0 <= p < q < product(m.layout.shape.remove(a)) ==> #[trigger] place(
                m.layout.shape,
                a,
                i,
                p,
            ) < #[trigger] place(m.layout.shape, a, i, q),
        forall|k: int|
            0 <= k < m.layout.size() && #[trigger] unravel(m.layout.shape, k)[a] == i ==> {
                &&& 0 <= ravel(m.layout.shape.remove(a), unravel(m.layout.shape, k).remove(a))
                    < product(m.layout.shape.remove(a))
                &&& place(
                    m.layout.shape,
                    a,
                    i,
                    ravel(m.layout.shape.remove(a), unravel(m.layout.shape, k).remove(a)),
                ) == k
            },
{
    let shape = m.layout.shape;
    let sub = shape.remove(a);
    let part = m.index_axis(a, i);
    assert(is_shape(sub));
    lemma_product_nonnegative(sub);
    lemma_product_nonnegative(shape);
    assert forall|k: int| 0 <= k < m.layout.size() implies (#[trigger] unravel(shape, k)).len()
        == shape.len() by {
        lemma_unravel_within(shape, k);
    }
    assert forall|p: int| 0 <= p < product(sub) implies {
        &&& 0 <= #[trigger] place(shape, a, i, p) < m.layout.size()
        &&& unravel(shape, place(shape, a, i, p))[a] == i
        &&& part.flat()[p] == m.flat()[place(shape, a, i, p)]
    } by {
        lemma_index_axis_at(m, a, i, p);
        lemma_unravel_within(sub, p);
        let idx = unravel(sub, p).insert(a, i);
        crate::layout::lemma_ravel_bounds(shape, idx);
        crate::layout::lemma_unravel_ravel(shape, idx);
    }
    assert forall|p: int, q: int| 0 <= p < q < product(sub) implies #[trigger] place(
        shape,
        a,
        i,
        p,
    ) < #[trigger] place(shape, a, i, q) by {
        crate::layout::lemma_place_increasing(shape, a, i, p, q);
    }
    assert forall|k: int| 0 <= k < m.layout.size() && #[trigger] unravel(shape, k)[a] == i implies {
        &&& 0 <= ravel(sub, unravel(shape, k).remove(a)) < product(sub)
        &&& place(shape, a, i, ravel(sub, unravel(shape, k).remove(a))) == k
    } by {
        let idx = unravel(shape, k);
        lemma_unravel_within(shape, k);
        let rest = idx.remove(a);
        assert(within(rest, sub)) by {
            assert forall|j: int| 0 <= j < rest.len() implies 0 <= #[trigger] rest[j] < sub[j] by {
                if j < a {
                    assert(0 <= idx[j] < shape[j]);
                } else {
                    assert(0 <= idx[j + 1] < shape[j + 1]);
                }
            }
        }
        crate::layout::lemma_ravel_bounds(sub, rest);
        crate::layout::lemma_unravel_ravel(sub, rest);
        assert(rest.insert(a, i) =~= idx);
        crate::layout::lemma_ravel_unravel(shape, k);
    }
}

} // verus!
