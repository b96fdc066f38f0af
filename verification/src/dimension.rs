//! Shapes and strides as stored: the extents and steps of each axis together
//! with the base offset, and the layouts derived from them.

use vstd::prelude::*;
use crate::layout::Layout;
use crate::layout::capacity;
use crate::layout::dominates;
use crate::layout::dot;
use crate::layout::highest;
use crate::layout::is_shape;
use crate::layout::lemma_capacity_bounds;
use crate::layout::lemma_capacity_insert_one;
use crate::layout::lemma_capacity_part;
use crate::layout::lemma_capacity_remove;
use crate::layout::lemma_product_first;
use crate::layout::lemma_product_nonnegative;
use crate::layout::lemma_product_update;
use crate::layout::lemma_span;
use crate::layout::lemma_span_prefix;
use crate::layout::lowest;
use crate::layout::magnitude;
use crate::layout::nonzero;
use crate::layout::origin;
use crate::layout::product;
use crate::layout::reach;
use crate::layout::within;

verus! {

/// One axis of an array, by its place in shape and strides.
#[derive(Clone, Copy, Debug, PartialEq, Eq, Structural)]
pub struct Axis(pub usize);

impl Axis {
    /// The place of the axis.
    pub fn index(&self) -> (i: usize)
        ensures
            i == self.0,
    {
        self.0
    }
}

/// Why a shape, a set of strides or a chunk size cannot be used.
#[derive(Clone, Copy, Debug, PartialEq, Eq, Structural)]
pub enum ShapeError {
    /// The number of elements does not match the shape.
    IncompatibleShape,
    /// Some element would lie outside the buffer.
    OutOfBounds,
    /// The product of the non-zero extents, or the length of the buffer,
    /// does not fit in `isize`.
    Overflow,
    /// The axis cannot be cut into chunks of the given size without a rest.
    UnevenChunks,
}

/// Extents as mathematical integers.
pub open spec fn extents(v: Seq<usize>) -> Seq<int> {
    Seq::new(v.len(), |i: int| v[i] as int)
}

/// Strides as mathematical integers.
pub open spec fn steps(v: Seq<isize>) -> Seq<int> {
    Seq::new(v.len(), |i: int| v[i] as int)
}

/// The shape and strides of an array and the buffer position of its first
/// element. The product of the non-zero extents never exceeds `isize::MAX`.
pub struct Dimension {
    shape: Vec<usize>,
    strides: Vec<isize>,
    offset: usize,
}

impl View for Dimension {
    type V = Layout;

    closed spec fn view(&self) -> Layout {
        Layout {
            shape: extents(self.shape@),
            strides: steps(self.strides@),
            offset: self.offset as int,
        }
    }
}

/// What holds of the layout of every `Dimension`.
pub open spec fn bounded(l: Layout) -> bool {
    &&& l.wf()
    &&& capacity(l.shape) <= isize::MAX
    &&& 0 <= l.offset <= usize::MAX
    &&& forall|i: int| 0 <= i < l.strides.len() ==> isize::MIN <= #[trigger] l.strides[i] <= isize::MAX
}

/// The capacity of a shape, or `None` where it exceeds `isize::MAX`.
fn checked_capacity(shape: &[usize]) -> (r: Option<usize>)
    ensures
        match r {
            Some(c) => c == capacity(extents(shape@)) && c <= isize::MAX,
            None => capacity(extents(shape@)) > isize::MAX,
        },
{
    let ghost s = extents(shape@);
    let mut cap: usize = 1;
    let mut i: usize = 0;
    while i < shape.len()
        invariant
            i <= shape.len(),
            s == extents(shape@),
            cap == capacity(s.take(i as int)),
            1 <= cap <= isize::MAX,
        decreases shape.len() - i,
    {
        let d: usize = if shape[i] == 0 {
            1
        } else {
            shape[i]
        };
        proof {
            let t = s.take(i + 1);
            assert(t.drop_last() =~= s.take(i as int));
            assert(nonzero(t).drop_last() =~= nonzero(s.take(i as int)));
            assert(capacity(t) == cap * d);
            lemma_capacity_part(s, i + 1);
            assert(1 <= cap * d) by (nonlinear_arith)
                requires
                    1 <= cap,
                    1 <= d,
            ;
        }
        match cap.checked_mul(d) {
            Some(c) => {
                if c > isize::MAX as usize {
                    return None;
                }
                cap = c;
            },
            None => {
                return None;
            },
        }
        i += 1;
    }
    proof {
        assert(s.take(i as int) =~= s);
    }
    Some(cap)
}

/// Row-major strides for a shape of bounded capacity.
fn row_major_strides(shape: &[usize]) -> (r: Vec<isize>)
    requires
        capacity(extents(shape@)) <= isize::MAX,
    ensures
        steps(r@) == crate::layout::row_major(extents(shape@)),
{
    let ghost s = extents(shape@);
    let n = shape.len();
    let mut strides: Vec<isize> = Vec::new();
    let mut k: usize = 0;
    while k < n
        invariant
            k <= n,
            strides.len() == k,
        decreases n - k,
    {
        strides.push(0);
        k += 1;
    }
    let mut acc: usize = 1;
    let mut i: usize = n;
    while i > 0
        invariant
            i <= n,
            n == shape.len(),
            strides.len() == n,
            s == extents(shape@),
            is_shape(s),
            capacity(s) <= isize::MAX,
            acc == product(s.skip(i as int)),
            forall|j: int| i <= j < n ==> #[trigger] strides[j] == product(s.skip(j + 1)),
        decreases i,
    {
        i -= 1;
        proof {
            lemma_capacity_part(s, i as int);
            lemma_capacity_part(s, i + 1);
            lemma_capacity_bounds(s.skip(i as int));
            lemma_capacity_bounds(s.skip(i + 1));
            lemma_product_nonnegative(s.skip(i as int));
            lemma_product_first(s.skip(i as int));
            assert(s.skip(i as int).skip(1) =~= s.skip(i + 1));
            assert(product(s.skip(i as int)) == shape[i as int] * acc);
        }
        strides.set(i, acc as isize);
        acc = shape[i] * acc;
    }
    proof {
        assert(steps(strides@) =~= crate::layout::row_major(s));
    }
    strides
}


fn copy_of<T: Copy>(v: &[T]) -> (r: Vec<T>)
    ensures
        r@ == v@,
{
    let mut out: Vec<T> = Vec::new();
    let mut i: usize = 0;
    while i < v.len()
        invariant
            i <= v.len(),
            out@ == v@.take(i as int),
        decreases v.len() - i,
    {
        out.push(v[i]);
        proof {
            assert(v@.take(i + 1) =~= v@.take(i as int).push(v@[i as int]));
        }
        i += 1;
    }
    proof {
        assert(v@.take(i as int) =~= v@);
    }
    out
}

fn without<T: Copy>(v: &Vec<T>, a: usize) -> (r: Vec<T>)
    requires
        a < v.len(),
    ensures
        r@ == v@.remove(a as int),
{
    let mut out: Vec<T> = Vec::new();
    let mut i: usize = 0;
    while i < v.len()
        invariant
            i <= v.len(),
            a < v.len(),
            out.len() == (if i <= a { i as int } else { i - 1 }),
            forall|j: int| 0 <= j < out.len() ==> #[trigger] out[j] == v@.remove(a as int)[j],
        decreases v.len() - i,
    {
        if i != a {
            out.push(v[i]);
        }
        i += 1;
    }
    proof {
        assert(out@ =~= v@.remove(a as int));
    }
    out
}

fn with_inserted<T: Copy>(v: &Vec<T>, a: usize, x: T) -> (r: Vec<T>)
    requires
        a <= v.len(),
    ensures
        r@ == v@.insert(a as int, x),
{
    let mut out: Vec<T> = Vec::new();
    let mut i: usize = 0;
    while i < v.len()
        invariant
            i <= v.len(),
            a <= v.len(),
            out.len() == (if i <= a { i as int } else { i + 1 }),
            forall|j: int| 0 <= j < out.len() ==> #[trigger] out[j] == v@.insert(a as int, x)[j],
        decreases v.len() - i,
    {
        if i == a {
            out.push(x);
        }
        out.push(v[i]);
        i += 1;
    }
    if a == v.len() {
        out.push(x);
    }
    proof {
        assert(out@ =~= v@.insert(a as int, x));
    }
    out
}

fn reversed<T: Copy>(v: &Vec<T>) -> (r: Vec<T>)
    ensures
        r@ == v@.reverse(),
{
    let n = v.len();
    let mut out: Vec<T> = Vec::new();
    let mut i: usize = 0;
    while i < n
        invariant
            i <= n,
            n == v.len(),
            out.len() == i,
            forall|j: int| 0 <= j < i ==> #[trigger] out[j] == v[n - 1 - j],
        decreases n - i,
    {
        out.push(v[n - 1 - i]);
        i += 1;
    }
    proof {
        assert(out@ =~= v@.reverse());
    }
    out
}


/// Whether every axis with more than one index steps further than the axes
/// behind it reach together.
fn strides_dominate(shape: &[usize], strides: &[isize]) -> (b: bool)
    requires
        shape.len() == strides.len(),
        forall|i: int| 0 <= i < shape.len() ==> 0 < #[trigger] shape[i] <= isize::MAX,
    ensures
        b == dominates(extents(shape@), steps(strides@)),
{
    let ghost s = extents(shape@);
    let ghost t = steps(strides@);
    let n = shape.len();
    let mut acc: i128 = 0;
    let mut i: usize = n;
    proof {
        assert(s.skip(n as int) =~= Seq::<int>::empty());
    }
    while i > 0
        invariant
            i <= n,
            n == shape.len(),
            n == strides.len(),
            s == extents(shape@),
            t == steps(strides@),
            forall|j: int| 0 <= j < n ==> 0 < #[trigger] shape[j] <= isize::MAX,
            acc == reach(s.skip(i as int), t.skip(i as int)),
            0 <= acc <= 0x4000_0000_0000_0000_8000_0000_0000_0000,
            forall|j: int|
                i <= j < n && #[trigger] s[j] > 1 ==> magnitude(t[j]) > reach(
                    s.skip(j + 1),
                    t.skip(j + 1),
                ),
        decreases i,
    {
        i -= 1;
        let extent = shape[i];
        let wide: i128 = strides[i] as i128;
        let step: i128 = if wide < 0 {
            -wide
        } else {
            wide
        };
        proof {
            assert(s.skip(i as int).skip(1) =~= s.skip(i + 1));
            assert(t.skip(i as int).skip(1) =~= t.skip(i + 1));
            assert(s.skip(i as int)[0] == extent);
            assert(t.skip(i as int)[0] == strides[i as int]);
            assert(step == magnitude(t[i as int]));
            assert(0 <= (extent - 1) * step <= 0x4000_0000_0000_0000_0000_0000_0000_0000)
                by (nonlinear_arith)
                requires
                    0 < extent <= 0x7fff_ffff_ffff_ffff,
                    0 <= step <= 0x8000_0000_0000_0000,
            ;
        }
        if extent > 1 {
            if step <= acc {
                proof {
                    assert(s[i as int] > 1);
                    assert(!(magnitude(t[i as int]) > reach(s.skip(i + 1), t.skip(i + 1))));
                }
                return false;
            }
            acc = acc + (extent as i128 - 1) * step;
        } else {
            assert((extent - 1) * step == 0) by (nonlinear_arith)
                requires
                    extent == 1,
            ;
        }
    }
    true
}

impl Dimension {
    /// One stride per axis, and a capacity within `isize`.
    #[verifier::type_invariant]
    pub closed spec fn inv(&self) -> bool {
        &&& self.shape.len() == self.strides.len()
        &&& capacity(extents(self.shape@)) <= isize::MAX
    }

    /// What the invariant of a dimension says of its layout.
    pub proof fn lemma_bounded(&self)
        requires
            self.inv(),
        ensures
            bounded(self@),
    {
    }

    /// The dimension of a fresh array of the given shape: row-major strides
    /// and offset 0. Fails where the capacity of the shape exceeds
    /// `isize::MAX`.
    pub fn from_shape(shape: &[usize]) -> (r: Result<Dimension, ShapeError>)
        ensures
            match r {
                Ok(d) => d@ == Layout::standard(extents(shape@)) && bounded(d@),
                Err(e) => e == ShapeError::Overflow && capacity(extents(shape@)) > isize::MAX,
            },
    {
        match checked_capacity(shape) {
            None => Err(ShapeError::Overflow),
            Some(_) => {
                let strides = row_major_strides(shape);
                let own = copy_of(shape);
                proof {
                    assert(steps(strides@).len() == shape.len());
                }
                Ok(Dimension { shape: own, strides, offset: 0 })
            },
        }
    }

    /// A dimension with the given shape, strides and offset. Fails where
    /// shape and strides differ in length, and where the capacity of the
    /// shape exceeds `isize::MAX`.
    pub fn with_strides(shape: &[usize], strides: &[isize], offset: usize) -> (r: Result<
        Dimension,
        ShapeError,
    >)
        ensures
            match r {
                Ok(d) => {
                    &&& d@ == (Layout {
                        shape: extents(shape@),
                        strides: steps(strides@),
                        offset: offset as int,
                    })
                    &&& bounded(d@)
                },
                Err(e) => if shape.len() != strides.len() {
                    e == ShapeError::IncompatibleShape
                } else {
                    e == ShapeError::Overflow && capacity(extents(shape@)) > isize::MAX
                },
            },
    {
        if shape.len() != strides.len() {
            return Err(ShapeError::IncompatibleShape);
        }
        match checked_capacity(shape) {
            None => Err(ShapeError::Overflow),
            Some(_) => Ok(Dimension { shape: copy_of(shape), strides: copy_of(strides), offset }),
        }
    }

    /// Whether every element lies inside a buffer of `len` elements.
    pub fn fits(&self, len: usize) -> (b: bool)
        ensures
            b == self@.fits(len as int),
    {
        proof {
            use_type_invariant(self);
        }
        let ghost l = self@;
        if self.size() == 0 {
            proof {
                crate::layout::lemma_empty_fits(l, len as int);
            }
            return true;
        }
        if self.offset >= len {
            proof {
                lemma_product_nonnegative(l.shape);
                let z = origin(l.shape.len());
                assert(within(z, l.shape));
                crate::layout::lemma_dot_origin(l.shape.len(), l.strides);
            }
            return false;
        }
        let n = self.shape.len();
        let mut low: i128 = self.offset as i128;
        let mut high: i128 = self.offset as i128;
        let mut k: usize = 0;
        proof {
            lemma_product_nonnegative(l.shape);
            lemma_capacity_bounds(l.shape);
            assert(l.shape.take(0) =~= Seq::<int>::empty());
        }
        while k < n
            invariant
                k <= n,
                n == self.shape.len(),
                n == self.strides.len(),
                l == self@,
                l.shape == extents(self.shape@),
                l.strides == steps(self.strides@),
                l.offset == self.offset,
                bounded(l),
                product(l.shape) > 0,
                forall|i: int| 0 <= i < n ==> 0 < #[trigger] l.shape[i] <= isize::MAX,
                low == l.offset + dot(
                    lowest(l.shape.take(k as int), l.strides.take(k as int)),
                    l.strides.take(k as int),
                ),
                high == l.offset + dot(
                    highest(l.shape.take(k as int), l.strides.take(k as int)),
                    l.strides.take(k as int),
                ),
                0 <= low <= high < len,
            decreases n - k,
        {
            let extent = self.shape[k];
            let stride = self.strides[k];
            proof {
                let sh = l.shape.take(k + 1);
                let st = l.strides.take(k + 1);
                assert(sh.drop_last() =~= l.shape.take(k as int));
                assert(st.drop_last() =~= l.strides.take(k as int));
                assert(lowest(sh, st).drop_last() =~= lowest(sh.drop_last(), st.drop_last()));
                assert(highest(sh, st).drop_last() =~= highest(sh.drop_last(), st.drop_last()));
                assert(l.shape[k as int] == extent);
                assert(l.strides[k as int] == stride);
                lemma_span_prefix(l.shape, l.strides, k + 1);
                assert(-0x4000_0000_0000_0000_0000_0000_0000_0000 <= (extent - 1) * stride
                    <= 0x4000_0000_0000_0000_0000_0000_0000_0000) by (nonlinear_arith)
                    requires
                        0 < extent <= 0x7fff_ffff_ffff_ffff,
                        -0x8000_0000_0000_0000 <= stride <= 0x7fff_ffff_ffff_ffff,
                ;
            }
            let reach: i128 = (extent as i128 - 1) * (stride as i128);
            proof {
                assert(stride < 0 ==> reach <= 0) by (nonlinear_arith)
                    requires
                        reach == (extent - 1) * stride,
                        extent >= 1,
                ;
                assert(stride > 0 ==> reach >= 0) by (nonlinear_arith)
                    requires
                        reach == (extent - 1) * stride,
                        extent >= 1,
                ;
                assert(0 * stride == 0);
            }
            if stride < 0 {
                low = low + reach;
                if low < 0 {
                    proof {
                        let w = lowest(l.shape.take(k + 1), l.strides.take(k + 1)) + origin(
                            (n - k - 1) as nat,
                        );
                        assert(within(w, l.shape));
                        assert(l.position(w) < 0);
                    }
                    return false;
                }
            } else if stride > 0 {
                high = high + reach;
                if high >= len as i128 {
                    proof {
                        let w = highest(l.shape.take(k + 1), l.strides.take(k + 1)) + origin(
                            (n - k - 1) as nat,
                        );
                        assert(within(w, l.shape));
                        assert(l.position(w) >= len);
                    }
                    return false;
                }
            } else {
                assert(0 * stride == 0);
            }
            k += 1;
        }
        proof {
            assert(l.shape.take(n as int) =~= l.shape);
            assert(l.strides.take(n as int) =~= l.strides);
            assert forall|idx: Seq<int>| #[trigger] within(idx, l.shape) implies 0 <= l.position(
                idx,
            ) < len by {
                lemma_span(l.shape, l.strides, idx);
            }
        }
        true
    }

    /// The number of axes.
    pub fn ndim(&self) -> (n: usize)
        ensures
            n == self@.ndim(),
            bounded(self@),
    {
        proof {
            use_type_invariant(self);
        }
        self.shape.len()
    }
    /// The extent of each axis.
    pub fn shape(&self) -> (s: &[usize])
        ensures
            extents(s@) == self@.shape,
            bounded(self@),
    {
        proof {
            use_type_invariant(self);
        }
        self.shape.as_slice()
    }

    /// The stride of each axis, in elements.
    pub fn strides(&self) -> (s: &[isize])
        ensures
            steps(s@) == self@.strides,
            bounded(self@),
    {
        proof {
            use_type_invariant(self);
        }
        self.strides.as_slice()
    }

    /// The buffer position of the first element.
    pub fn offset(&self) -> (o: usize)
        ensures
            o == self@.offset,
    {
        self.offset
    }

    /// The extent of one axis.
    pub fn len_of(&self, axis: Axis) -> (n: usize)
        requires
            axis.0 < self@.ndim(),
        ensures
            n == self@.shape[axis.0 as int],
            n <= isize::MAX,
    {
        proof {
            use_type_invariant(self);
            lemma_capacity_bounds(self@.shape);
        }
        self.shape[axis.0]
    }

    /// The stride of one axis.
    pub fn stride_of(&self, axis: Axis) -> (n: isize)
        requires
            axis.0 < self@.ndim(),
        ensures
            n == self@.strides[axis.0 as int],
    {
        proof {
            use_type_invariant(self);
        }
        self.strides[axis.0]
    }

    /// The number of elements: the product of the extents.
    pub fn size(&self) -> (n: usize)
        ensures
            n == self@.size(),
            n <= isize::MAX,
    {
        proof {
            use_type_invariant(self);
        }
        let ghost s = self@.shape;
        let mut acc: usize = 1;
        let mut i: usize = 0;
        while i < self.shape.len()
            invariant
                i <= self.shape.len(),
                s == extents(self.shape@),
                capacity(s) <= isize::MAX,
                acc == product(s.take(i as int)),
            decreases self.shape.len() - i,
        {
            proof {
                let t = s.take(i + 1);
                assert(t.drop_last() =~= s.take(i as int));
                lemma_capacity_part(s, i + 1);
                lemma_capacity_bounds(t);
                lemma_product_nonnegative(t);
            }
            acc = acc * self.shape[i];
            i += 1;
        }
        proof {
            assert(s.take(i as int) =~= s);
            lemma_capacity_bounds(s);
        }
        acc
    }

    /// The dimension without one axis: its extent and stride are dropped, the
    /// others keep their order.
    pub fn remove_axis(&self, axis: Axis) -> (r: Dimension)
        requires
            axis.0 < self@.ndim(),
        ensures
            r@ == self@.remove_axis(axis.0 as int),
            r@.size() * self@.shape[axis.0 as int] == self@.size(),
            self@.shape[axis.0 as int] != 0 ==> r@.size() == self@.size() / self@.shape[axis.0 as int],
            bounded(r@),
    {
        proof {
            use_type_invariant(self);
            lemma_capacity_remove(self@.shape, axis.0 as int);
            crate::layout::lemma_remove_axis_size(self@, axis.0 as int);
        }
        let shape = without(&self.shape, axis.0);
        let strides = without(&self.strides, axis.0);
        proof {
            assert(extents(shape@) =~= self@.shape.remove(axis.0 as int));
            assert(steps(strides@) =~= self@.strides.remove(axis.0 as int));
        }
        Dimension { shape, strides, offset: self.offset }
    }

    /// The dimension with one more axis, of extent 1, at the given place.
    pub fn insert_axis(&self, axis: Axis) -> (r: Dimension)
        requires
            axis.0 <= self@.ndim(),
        ensures
            r@ == self@.insert_axis(axis.0 as int),
            bounded(r@),
    {
        proof {
            use_type_invariant(self);
            lemma_capacity_insert_one(self@.shape, axis.0 as int);
        }
        let shape = with_inserted(&self.shape, axis.0, 1);
        let strides = with_inserted(&self.strides, axis.0, 1);
        proof {
            assert(extents(shape@) =~= self@.shape.insert(axis.0 as int, 1));
            assert(steps(strides@) =~= self@.strides.insert(axis.0 as int, 1));
        }
        Dimension { shape, strides, offset: self.offset }
    }

    /// The dimension of the part at index `i` of an axis: the axis is
    /// removed and the offset moves `i` strides along it. Without elements
    /// there is nothing to move to, and the offset stays.
    pub fn index_axis(&self, axis: Axis, i: usize) -> (r: Dimension)
        requires
            axis.0 < self@.ndim(),
            i < self@.shape[axis.0 as int],
            self@.size() > 0 ==> 0 <= self@.index_axis(axis.0 as int, i as int).offset
                <= usize::MAX,
        ensures
            r@ == self@.part(axis.0 as int, i as int),
            bounded(r@),
    {
        proof {
            use_type_invariant(self);
            lemma_capacity_remove(self@.shape, axis.0 as int);
        }
        let offset = if self.size() == 0 {
            self.offset
        } else {
            self.moved(axis, i)
        };
        let shape = without(&self.shape, axis.0);
        let strides = without(&self.strides, axis.0);
        proof {
            assert(extents(shape@) =~= self@.shape.remove(axis.0 as int));
            assert(steps(strides@) =~= self@.strides.remove(axis.0 as int));
        }
        Dimension { shape, strides, offset }
    }

    /// The dimension of a run of `len` indices of an axis, from `start` on:
    /// the axis keeps its stride and the offset moves `start` strides along
    /// it. Without elements there is nothing to move to, and the offset
    /// stays.
    pub fn slice_axis(&self, axis: Axis, start: usize, len: usize) -> (r: Dimension)
        requires
            axis.0 < self@.ndim(),
            start + len <= self@.shape[axis.0 as int],
            self@.size() > 0 && len > 0 ==> 0 <= self@.slice_axis(
                axis.0 as int,
                start as int,
                len as int,
            ).offset <= usize::MAX,
        ensures
            r@ == self@.run(axis.0 as int, start as int, len as int),
            bounded(r@),
    {
        proof {
            use_type_invariant(self);
            assert(0 * self@.strides[axis.0 as int] == 0);
        }
        let offset = if len == 0 || self.size() == 0 {
            self.offset
        } else {
            self.moved(axis, start)
        };
        let mut shape = copy_of(self.shape.as_slice());
        shape.set(axis.0, len);
        let strides = copy_of(self.strides.as_slice());
        proof {
            let a = axis.0 as int;
            let old_shape = self@.shape;
            let new_shape = old_shape.update(a, len as int);
            assert(extents(shape@) =~= new_shape);
            assert(steps(strides@) =~= self@.strides);
            lemma_product_update(nonzero(old_shape), a, nonzero(new_shape)[a]);
            lemma_product_update(nonzero(old_shape), a, nonzero(old_shape)[a]);
            assert(nonzero(old_shape).update(a, nonzero(new_shape)[a]) =~= nonzero(new_shape));
            assert(nonzero(old_shape).update(a, nonzero(old_shape)[a]) =~= nonzero(old_shape));
            lemma_capacity_remove(old_shape, a);
            assert(nonzero(old_shape).remove(a) =~= nonzero(old_shape.remove(a)));
            lemma_capacity_bounds(old_shape.remove(a));
            let c = capacity(old_shape.remove(a));
            let x = nonzero(new_shape)[a];
            let y = nonzero(old_shape)[a];
            assert(c * x <= c * y) by (nonlinear_arith)
                requires
                    1 <= c,
                    x <= y,
            ;
        }
        Dimension { shape, strides, offset }
    }

    /// The dimension with the order of the axes reversed.
    pub fn reversed_axes(&self) -> (r: Dimension)
        ensures
            r@ == self@.reversed_axes(),
            bounded(r@),
    {
        proof {
            use_type_invariant(self);
        }
        let shape = reversed(&self.shape);
        let strides = reversed(&self.strides);
        proof {
            assert(extents(shape@) =~= self@.shape.reverse());
            assert(steps(strides@) =~= self@.strides.reverse());
            crate::layout::lemma_capacity_reverse(self@.shape);
        }
        Dimension { shape, strides, offset: self.offset }
    }

    /// A copy of this dimension.
    pub fn duplicate(&self) -> (r: Dimension)
        ensures
            r@ == self@,
            bounded(r@),
    {
        proof {
            use_type_invariant(self);
        }
        let shape = copy_of(self.shape.as_slice());
        let strides = copy_of(self.strides.as_slice());
        Dimension { shape, strides, offset: self.offset }
    }

    /// The dimension of a fresh array of the same shape: row-major strides
    /// and offset 0.
    pub fn to_standard(&self) -> (r: Dimension)
        ensures
            r@ == Layout::standard(self@.shape),
            bounded(r@),
    {
        proof {
            use_type_invariant(self);
        }
        let shape = copy_of(self.shape.as_slice());
        let strides = row_major_strides(self.shape.as_slice());
        proof {
            assert(steps(strides@).len() == shape.len());
        }
        Dimension { shape, strides, offset: 0 }
    }

    /// The offset after `i` steps along an axis.
    fn moved(&self, axis: Axis, i: usize) -> (o: usize)
        requires
            axis.0 < self@.ndim(),
            i <= self@.shape[axis.0 as int],
            0 <= self@.offset + i * self@.strides[axis.0 as int] <= usize::MAX,
        ensures
            o == self@.offset + i * self@.strides[axis.0 as int],
    {
        proof {
            use_type_invariant(self);
            lemma_capacity_bounds(self@.shape);
        }
        let stride = self.strides[axis.0];
        assert(-0x4000_0000_0000_0000_0000_0000_0000_0000 <= i * stride
            <= 0x4000_0000_0000_0000_0000_0000_0000_0000) by (nonlinear_arith)
            requires
                0 <= i <= 0x7fff_ffff_ffff_ffff,
                -0x8000_0000_0000_0000 <= stride <= 0x7fff_ffff_ffff_ffff,
        ;
        let wide: i128 = self.offset as i128 + (i as i128) * (stride as i128);
        wide as usize
    }
    /// Whether the elements lie in the buffer in row-major order without
    /// gaps. The stride of an axis with at most one index does not count.
    pub fn is_standard_layout(&self) -> (b: bool)
        ensures
            b == self@.is_row_major(),
    {
        proof {
            use_type_invariant(self);
        }
        if self.size() == 0 {
            return true;
        }
        let ghost s = self@.shape;
        let ghost t = self@.strides;
        let n = self.shape.len();
        let mut acc: usize = 1;
        let mut i: usize = n;
        while i > 0
            invariant
                i <= n,
                n == self.shape.len(),
                n == self.strides.len(),
                s == extents(self.shape@),
                t == steps(self.strides@),
                is_shape(s),
                capacity(s) <= isize::MAX,
                product(s) != 0,
                acc == product(s.skip(i as int)),
                forall|j: int| i <= j < n ==> #[trigger] s[j] <= 1 || t[j] == 1 * product(s.skip(j + 1)),
            decreases i,
        {
            i -= 1;
            proof {
                lemma_capacity_part(s, i as int);
                lemma_capacity_part(s, i + 1);
                lemma_capacity_bounds(s.skip(i as int));
                lemma_capacity_bounds(s.skip(i + 1));
                lemma_product_first(s.skip(i as int));
                assert(s.skip(i as int).skip(1) =~= s.skip(i + 1));
                assert(product(s.skip(i as int)) == self.shape[i as int] * acc);
            }
            if self.shape[i] > 1 && self.strides[i] != acc as isize {
                proof {
                    assert(!(s[i as int] <= 1 || t[i as int] == 1 * product(s.skip(i + 1))));
                }
                return false;
            }
            acc = self.shape[i] * acc;
        }
        true
    }

    /// Whether the elements lie in the buffer in column-major order without
    /// gaps. The stride of an axis with at most one index does not count.
    pub fn is_column_major_layout(&self) -> (b: bool)
        ensures
            b == self@.is_column_major(),
    {
        proof {
            use_type_invariant(self);
        }
        if self.size() == 0 {
            return true;
        }
        let ghost s = self@.shape;
        let ghost t = self@.strides;
        let n = self.shape.len();
        let mut acc: usize = 1;
        let mut i: usize = 0;
        while i < n
            invariant
                i <= n,
                n == self.shape.len(),
                n == self.strides.len(),
                s == extents(self.shape@),
                t == steps(self.strides@),
                is_shape(s),
                capacity(s) <= isize::MAX,
                product(s) != 0,
                acc == product(s.take(i as int)),
                acc <= isize::MAX,
                forall|j: int| 0 <= j < i ==> #[trigger] s[j] <= 1 || t[j] == product(s.take(j)),
            decreases n - i,
        {
            proof {
                let u = s.take(i + 1);
                assert(u.drop_last() =~= s.take(i as int));
                lemma_capacity_part(s, i + 1);
                lemma_capacity_bounds(u);
                lemma_product_nonnegative(u);
            }
            if self.shape[i] > 1 && self.strides[i] != acc as isize {
                proof {
                    assert(!(s[i as int] <= 1 || t[i as int] == product(s.take(i as int))));
                }
                return false;
            }
            acc = acc * self.shape[i];
            i += 1;
        }
        true
    }

    /// Whether the elements lie side by side in the buffer, in row-major or
    /// in column-major order.
    pub fn is_contiguous(&self) -> (b: bool)
        ensures
            b == self@.is_contiguous(),
    {
        self.is_standard_layout() || self.is_column_major_layout()
    }

    /// Whether the axes are nested, so that no two elements share a buffer
    /// position: taken from the last axis to the first, or from the first to
    /// the last, each axis with more than one index steps further than
    /// those before it reach together.
    pub fn is_nested(&self) -> (b: bool)
        ensures
            b == self@.is_nested(),
    {
        proof {
            use_type_invariant(self);
            lemma_product_nonnegative(self@.shape);
            lemma_capacity_bounds(self@.shape);
        }
        if self.size() == 0 {
            return true;
        }
        let shape = reversed(&self.shape);
        let strides = reversed(&self.strides);
        proof {
            let n = self.shape.len() as int;
            assert forall|i: int| 0 <= i < n implies 0 < #[trigger] self.shape[i]
                <= isize::MAX by {
                assert(self@.shape[i] > 0);
                assert(self@.shape[i] <= capacity(self@.shape));
            }
            assert forall|i: int| 0 <= i < n implies 0 < #[trigger] shape[i] <= isize::MAX by {
                assert(shape[i] == self.shape[n - 1 - i]);
            }
            assert(extents(shape@) =~= self@.shape.reverse());
            assert(steps(strides@) =~= self@.strides.reverse());
        }
        strides_dominate(self.shape.as_slice(), self.strides.as_slice()) || strides_dominate(
            shape.as_slice(),
            strides.as_slice(),
        )
    }

    /// Whether two dimensions have the same shape. Strides and offset do not
    /// count.
    pub fn same_shape(&self, other: &Dimension) -> (b: bool)
        ensures
            b == (self@.shape == other@.shape),
    {
        if self.shape.len() != other.shape.len() {
            proof {
                assert(self@.shape.len() != other@.shape.len());
            }
            return false;
        }
        let mut i: usize = 0;
        while i < self.shape.len()
            invariant
                i <= self.shape.len(),
                self.shape.len() == other.shape.len(),
                forall|j: int| 0 <= j < i ==> self.shape[j] == other.shape[j],
            decreases self.shape.len() - i,
        {
            if self.shape[i] != other.shape[i] {
                proof {
                    assert(self@.shape[i as int] != other@.shape[i as int]);
                }
                return false;
            }
            i += 1;
        }
        proof {
            assert(self@.shape =~= other@.shape);
        }
        true
    }
}

} // verus!

verus! {

impl PartialEq for Dimension {
    /// Two dimensions are equal when their shapes are.
    fn eq(&self, other: &Dimension) -> (b: bool) {
        self.same_shape(other)
    }
}

impl vstd::std_specs::cmp::PartialEqSpecImpl for Dimension {
    open spec fn obeys_eq_spec() -> bool {
        true
    }

    open spec fn eq_spec(&self, other: &Dimension) -> bool {
        self@.shape == other@.shape
    }
}

} // verus!
