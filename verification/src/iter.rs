//! Walking an array: the buffer positions of its elements in row-major order
//! of their indices, and the elements themselves.

use vstd::prelude::*;
use crate::array::ArrayBase;
use crate::array::ArrayModel;
use crate::array::valid;
use crate::dimension::Axis;
use crate::dimension::Dimension;
use crate::dimension::ShapeError;
use crate::dimension::bounded;
use crate::dimension::extents;
use crate::dimension::steps;
use crate::layout::Layout;
use crate::layout::lemma_capacity_bounds;
use crate::layout::lemma_dot_origin;
use crate::layout::lemma_dot_update;
use crate::layout::lemma_part_fits;
use crate::layout::lemma_run_fits;
use crate::layout::lemma_unravel_origin;
use crate::layout::lemma_unravel_successor;
use crate::layout::lemma_unravel_within;
use crate::layout::origin;
use crate::layout::successor;
use crate::layout::unravel;
use crate::layout::within;

verus! {

/// A cursor over the buffer positions of the elements of a layout, in
/// row-major order of their indices: the last axis varies fastest.
pub struct Offsets<'a> {
    shape: &'a [usize],
    strides: &'a [isize],
    base: usize,
    limit: usize,
    size: usize,
    index: Vec<usize>,
    position: usize,
    count: usize,
}

/// `index` followed by zeros where `prefix` keeps the first `j` coordinates
/// of `index`.
spec fn carried(index: Seq<int>, j: int) -> Seq<int> {
    index.take(j) + origin((index.len() - j) as nat)
}

/// Carrying over the axes behind `j` leaves the successor within the first
/// `j` axes to be found.
proof fn lemma_successor_carried(shape: Seq<int>, index: Seq<int>, j: int)
    requires
        within(index, shape),
        0 <= j <= index.len(),
        forall|i: int| j <= i < index.len() ==> #[trigger] index[i] + 1 == shape[i],
    ensures
        successor(shape, index) == successor(shape.take(j), index.take(j)) + origin(
            (index.len() - j) as nat,
        ),
    decreases index.len() - j,
{
    let n = index.len() as int;
    if j == n {
        assert(index.take(j) =~= index);
        assert(shape.take(j) =~= shape);
        assert(successor(shape, index) + origin(0) =~= successor(shape, index));
    } else {
        assert(index[n - 1] + 1 == shape[n - 1]);
        let si = shape.drop_last();
        let ii = index.drop_last();
        assert(within(ii, si)) by {
            assert forall|i: int| 0 <= i < ii.len() implies 0 <= #[trigger] ii[i] < si[i] by {
                assert(0 <= index[i] < shape[i]);
            }
        }
        assert forall|i: int| j <= i < ii.len() implies #[trigger] ii[i] + 1 == si[i] by {
            assert(index[i] + 1 == shape[i]);
        }
        lemma_successor_carried(si, ii, j);
        assert(si.take(j) =~= shape.take(j));
        assert(ii.take(j) =~= index.take(j));
        assert(origin((n - 1 - j) as nat).push(0) =~= origin((n - j) as nat));
        assert((successor(si.take(j), ii.take(j)) + origin((n - 1 - j) as nat)).push(0)
            =~= successor(shape.take(j), index.take(j)) + origin((n - j) as nat));
    }
}

impl<'a> Offsets<'a> {
    /// The layout that is walked.
    pub closed spec fn layout(&self) -> Layout {
        Layout {
            shape: extents(self.shape@),
            strides: steps(self.strides@),
            offset: self.base as int,
        }
    }

    /// How many positions have been handed out.
    pub closed spec fn count(&self) -> int {
        self.count as int
    }

    /// The cursor stands on the element that comes next.
    pub closed spec fn wf(&self) -> bool {
        &&& bounded(self.layout())
        &&& self.layout().fits(self.limit as int)
        &&& self.limit <= isize::MAX
        &&& self.size == self.layout().size()
        &&& self.count <= self.size
        &&& self.index.len() == self.shape.len()
        &&& self.count < self.size ==> {
            &&& extents(self.index@) == unravel(self.layout().shape, self.count as int)
            &&& self.position == self.layout().position(extents(self.index@))
        }
    }

    /// A cursor at the first element of `dim`, for a buffer of `limit`
    /// elements.
    pub fn new(dim: &'a Dimension, limit: usize) -> (r: Offsets<'a>)
        requires
            dim@.fits(limit as int),
            limit <= isize::MAX,
        ensures
            r.wf(),
            r.layout() == dim@,
            r.count() == 0,
    {
        let shape = dim.shape();
        let strides = dim.strides();
        let size = dim.size();
        let n = shape.len();
        let mut index: Vec<usize> = Vec::new();
        let mut i: usize = 0;
        while i < n
            invariant
                i <= n,
                index.len() == i,
                forall|j: int| 0 <= j < i ==> #[trigger] index[j] == 0,
            decreases n - i,
        {
            index.push(0);
            i += 1;
        }
        proof {
            assert(extents(index@) =~= origin(n as nat));
            if size > 0 {
                lemma_unravel_origin(dim@.shape);
                lemma_dot_origin(n as nat, dim@.strides);
            }
        }
        Offsets {
            shape,
            strides,
            base: dim.offset(),
            limit,
            size,
            index,
            position: dim.offset(),
            count: 0,
        }
    }

    /// The index of the element that comes next.
    pub fn index(&self) -> (r: &[usize])
        requires
            self.wf(),
            self.count() < self.layout().size(),
        ensures
            extents(r@) == unravel(self.layout().shape, self.count()),
    {
        self.index.as_slice()
    }

    /// What a cursor knows of its layout.
    pub proof fn lemma_bounded(&self)
        requires
            self.wf(),
        ensures
            bounded(self.layout()),
            self.count() <= self.layout().size(),
    {
    }

    /// How many positions are still to come.
    pub fn remaining(&self) -> (n: usize)
        requires
            self.wf(),
        ensures
            n == self.layout().size() - self.count(),
    {
        self.size - self.count
    }

    /// The buffer position of the next element in row-major order, or `None`
    /// after the last.
    pub fn next(&mut self) -> (r: Option<usize>)
        requires
            old(self).wf(),
        ensures
            final(self).wf(),
            final(self).layout() == old(self).layout(),
            match r {
                Some(p) => {
                    &&& old(self).count() < old(self).layout().size()
                    &&& p == old(self).layout().position_at(old(self).count())
                    &&& final(self).count() == old(self).count() + 1
                },
                None => {
                    &&& old(self).count() >= old(self).layout().size()
                    &&& final(self).count() == old(self).count()
                },
            },
    {
        if self.count >= self.size {
            return None;
        }
        let here = self.position;
        let ghost l = self.layout();
        let ghost start = extents(self.index@);
        let ghost c = self.count as int;
        self.count += 1;
        if self.count < self.size {
            proof {
                lemma_unravel_within(l.shape, c);
                lemma_unravel_successor(l.shape, c);
            }
            let n = self.shape.len();
            let mut j: usize = n;
            let mut done = false;
            proof {
                assert(carried(start, n as int) =~= start);
            }
            while j > 0 && !done
                invariant
                    j <= n,
                    n == self.shape.len(),
                    n == self.strides.len(),
                    n == self.index.len(),
                    l == self.layout(),
                    bounded(l),
                    l.fits(self.limit as int),
                    self.limit <= isize::MAX,
                    within(start, l.shape),
                    self.base == old(self).base,
                    self.limit == old(self).limit,
                    self.size == old(self).size,
                    self.count == c + 1,
                    self.shape == old(self).shape,
                    self.strides == old(self).strides,
                    within(extents(self.index@), l.shape),
                    self.position == l.position(extents(self.index@)),
                    !done ==> extents(self.index@) == carried(start, j as int),
                    !done ==> forall|i: int| j <= i < n ==> #[trigger] start[i] + 1 == l.shape[i],
                    done ==> extents(self.index@) == successor(l.shape, start),
                decreases j,
            {
                j -= 1;
                let ghost before = extents(self.index@);
                let stride = self.strides[j];
                proof {
                    assert(before[j as int] == self.index[j as int]);
                    assert(0 <= before[j as int] < l.shape[j as int]);
                    lemma_capacity_bounds(l.shape);
                    assert(l.strides[j as int] == stride);
                    assert(l.shape[j as int] == self.shape[j as int]);
                }
                if self.index[j] + 1 < self.shape[j] {
                    let next = self.index[j] + 1;
                    proof {
                        let after = before.update(j as int, next as int);
                        lemma_dot_update(before, l.strides, j as int, next as int);
                        assert(within(after, l.shape));
                        assert((next - before[j as int]) * l.strides[j as int] == stride)
                            by (nonlinear_arith)
                            requires
                                next - before[j as int] == 1,
                                l.strides[j as int] == stride,
                        ;
                        lemma_successor_carried(l.shape, start, j + 1);
                        assert(start.take(j + 1).drop_last() =~= start.take(j as int));
                        assert(after =~= start.take(j as int).push(next as int) + origin(
                            (n - j - 1) as nat,
                        ));
                    }
                    self.index.set(j, next);
                    self.position = (self.position as isize + stride) as usize;
                    done = true;
                    proof {
                        assert(extents(self.index@) =~= before.update(j as int, next as int));
                    }
                } else {
                    let back: isize;
                    proof {
                        let after = before.update(j as int, 0);
                        lemma_dot_update(before, l.strides, j as int, 0);
                        assert(within(after, l.shape));
                        assert((0 - before[j as int]) * l.strides[j as int] == -(self.index[j as int]
                            * stride)) by (nonlinear_arith)
                            requires
                                before[j as int] == self.index[j as int],
                                l.strides[j as int] == stride,
                        ;
                        assert(after =~= carried(start, j as int));
                    }
                    back = (self.index[j] as isize) * stride;
                    self.index.set(j, 0);
                    self.position = (self.position as isize - back) as usize;
                    proof {
                        assert(extents(self.index@) =~= before.update(j as int, 0));
                    }
                }
            }
            proof {
                if !done {
                    lemma_successor_carried(l.shape, start, 0);
                    assert(start.take(0) =~= Seq::<int>::empty());
                    assert(l.shape.take(0) =~= Seq::<int>::empty());
                }
            }
        }
        Some(here)
    }
}

/// A cursor over the elements of an array in row-major order of their
/// indices.
pub struct Iter<'a, A> {
    data: &'a [A],
    offsets: Offsets<'a>,
}

impl<'a, A> Iter<'a, A> {
    /// The array that is walked.
    pub closed spec fn array(&self) -> ArrayModel<A> {
        ArrayModel { buf: self.data@, layout: self.offsets.layout() }
    }

    /// How many elements have been handed out.
    pub closed spec fn count(&self) -> int {
        self.offsets.count()
    }

    /// The cursor stands on the element that comes next.
    pub closed spec fn wf(&self) -> bool {
        &&& self.offsets.wf()
        &&& self.offsets.layout().fits(self.data@.len() as int)
    }

    /// How many elements are still to come.
    pub fn len(&self) -> (n: usize)
        requires
            self.wf(),
        ensures
            n == self.array().layout.size() - self.count(),
    {
        self.offsets.remaining()
    }

    /// The next element in row-major order, or `None` after the last.
    pub fn next(&mut self) -> (r: Option<&'a A>)
        requires
            old(self).wf(),
        ensures
            final(self).wf(),
            final(self).array() == old(self).array(),
            match r {
                Some(x) => {
                    &&& old(self).count() < old(self).array().layout.size()
                    &&& *x == old(self).array().at(old(self).count())
                    &&& final(self).count() == old(self).count() + 1
                },
                None => {
                    &&& old(self).count() >= old(self).array().layout.size()
                    &&& final(self).count() == old(self).count()
                },
            },
    {
        let ghost l = self.offsets.layout();
        let ghost k = self.offsets.count();
        match self.offsets.next() {
            Some(p) => {
                proof {
                    self.offsets.lemma_bounded();
                    lemma_unravel_within(l.shape, k);
                }
                Some(&self.data[p])
            },
            None => None,
        }
    }
}

/// A cursor over the elements of an array together with their indices, in
/// row-major order.
pub struct IndexedIter<'a, A> {
    data: &'a [A],
    offsets: Offsets<'a>,
}

impl<'a, A> IndexedIter<'a, A> {
    /// The array that is walked.
    pub closed spec fn array(&self) -> ArrayModel<A> {
        ArrayModel { buf: self.data@, layout: self.offsets.layout() }
    }

    /// How many elements have been handed out.
    pub closed spec fn count(&self) -> int {
        self.offsets.count()
    }

    /// The cursor stands on the element that comes next.
    pub closed spec fn wf(&self) -> bool {
        &&& self.offsets.wf()
        &&& self.offsets.layout().fits(self.data@.len() as int)
    }

    /// The next index in row-major order with its element, or `None` after
    /// the last.
    pub fn next(&mut self) -> (r: Option<(Vec<usize>, &'a A)>)
        requires
            old(self).wf(),
        ensures
            final(self).wf(),
            final(self).array() == old(self).array(),
            match r {
                Some((idx, x)) => {
                    &&& old(self).count() < old(self).array().layout.size()
                    &&& extents(idx@) == unravel(
                        old(self).array().layout.shape,
                        old(self).count(),
                    )
                    &&& *x == old(self).array().elem(extents(idx@))
                    &&& final(self).count() == old(self).count() + 1
                },
                None => {
                    &&& old(self).count() >= old(self).array().layout.size()
                    &&& final(self).count() == old(self).count()
                },
            },
    {
        let ghost l = self.offsets.layout();
        let ghost k = self.offsets.count();
        if self.offsets.remaining() == 0 {
            return None;
        }
        let idx = copy_index(self.offsets.index());
        match self.offsets.next() {
            Some(p) => {
                proof {
                    self.offsets.lemma_bounded();
                    lemma_unravel_within(l.shape, k);
                }
                Some((idx, &self.data[p]))
            },
            None => None,
        }
    }
}

fn copy_index(v: &[usize]) -> (r: Vec<usize>)
    ensures
        r@ == v@,
{
    let mut out: Vec<usize> = Vec::new();
    let mut i: usize = 0;
    while i < v.len()
        invariant
            i <= v.len(),
            out@ == v@.take(i as int),
        decreases v.len() - i,
    {
        out.push(v[i]);
        proof {
            assert(v@.take(i + 1) =~= v@.take(i as int).push(v@[i as int]));
        }
        i += 1;
    }
    proof {
        assert(v@.take(i as int) =~= v@);
    }
    out
}

/// A cursor over the parts of an array along one axis: one view per index
/// of the axis, in increasing order, each with that axis removed.
pub struct AxisIter<'a, A> {
    data: &'a [A],
    dim: Dimension,
    axis: Axis,
    index: usize,
    end: usize,
}

impl<'a, A> AxisIter<'a, A> {
    /// The array whose parts are handed out.
    pub closed spec fn array(&self) -> ArrayModel<A> {
        ArrayModel { buf: self.data@, layout: self.dim@ }
    }

    /// The axis along which the array is taken apart.
    pub closed spec fn axis(&self) -> int {
        self.axis.0 as int
    }

    /// The index of the part that comes next.
    pub closed spec fn index(&self) -> int {
        self.index as int
    }

    /// The cursor stands on an index of the axis, or behind the last.
    pub closed spec fn wf(&self) -> bool {
        &&& self.dim@.fits(self.data@.len() as int)
        &&& self.data@.len() <= isize::MAX
        &&& self.axis.0 < self.dim@.ndim()
        &&& self.end == self.dim@.shape[self.axis.0 as int]
        &&& self.index <= self.end
    }

    /// How many parts are still to come.
    pub fn len(&self) -> (n: usize)
        requires
            self.wf(),
        ensures
            n == self.array().layout.shape[self.axis()] - self.index(),
    {
        self.end - self.index
    }

    /// The part at the next index of the axis, or `None` after the last.
    pub fn next(&mut self) -> (r: Option<ArrayBase<'a, A>>)
        requires
            old(self).wf(),
        ensures
            final(self).wf(),
            final(self).array() == old(self).array(),
            final(self).axis() == old(self).axis(),
            match r {
                Some(part) => {
                    &&& old(self).index() < old(self).array().layout.shape[old(self).axis()]
                    &&& part@ == old(self).array().index_axis(old(self).axis(), old(self).index())
                    &&& valid(part@)
                    &&& final(self).index() == old(self).index() + 1
                },
                None => {
                    &&& old(self).index() >= old(self).array().layout.shape[old(self).axis()]
                    &&& final(self).index() == old(self).index()
                },
            },
    {
        if self.index >= self.end {
            return None;
        }
        proof {
            use_type_invariant(&self.dim);
            self.dim.lemma_bounded();
            lemma_part_fits(
                self.dim@,
                self.axis.0 as int,
                self.index as int,
                self.data@.len() as int,
            );
        }
        let dim = self.dim.index_axis(self.axis, self.index);
        self.index += 1;
        Some(ArrayBase::view_from_parts(dim, self.data))
    }
}

/// The extent of a chunk that starts at `start` on an axis of `extent`
/// indices: `size`, or what is left of the axis where that is less.
pub open spec fn chunk_extent(extent: int, size: int, start: int) -> int {
    if extent - start < size {
        extent - start
    } else {
        size
    }
}

/// A cursor over the chunks of an array along one axis: views with the same
/// axes, each a run of `size` indices of the axis, one after the other; the
/// last holds what is left.
pub struct AxisChunksIter<'a, A> {
    data: &'a [A],
    dim: Dimension,
    axis: Axis,
    size: usize,
    start: usize,
    end: usize,
}

impl<'a, A> AxisChunksIter<'a, A> {
    /// The array whose chunks are handed out.
    pub closed spec fn array(&self) -> ArrayModel<A> {
        ArrayModel { buf: self.data@, layout: self.dim@ }
    }

    /// The axis along which the array is cut.
    pub closed spec fn axis(&self) -> int {
        self.axis.0 as int
    }

    /// The extent of a full chunk.
    pub closed spec fn size(&self) -> int {
        self.size as int
    }

    /// The index of the axis at which the next chunk starts.
    pub closed spec fn start(&self) -> int {
        self.start as int
    }

    /// The cursor stands where a chunk starts, or behind the last.
    pub closed spec fn wf(&self) -> bool {
        &&& self.dim@.fits(self.data@.len() as int)
        &&& self.data@.len() <= isize::MAX
        &&& self.axis.0 < self.dim@.ndim()
        &&& self.end == self.dim@.shape[self.axis.0 as int]
        &&& self.size > 0
        &&& self.start <= self.end
        &&& self.start < self.end ==> self.start as int % self.size as int == 0
    }

    /// How many chunks are still to come.
    pub fn len(&self) -> (n: usize)
        requires
            self.wf(),
        ensures
            n == (self.array().layout.shape[self.axis()] - self.start() + self.size() - 1)
                / self.size(),
    {
        let left = self.end - self.start;
        let full = left / self.size;
        proof {
            let s = self.size as int;
            let l = left as int;
            vstd::arithmetic::div_mod::lemma_fundamental_div_mod(l, s);
            vstd::arithmetic::div_mod::lemma_mod_bound(l, s);
            vstd::arithmetic::div_mod::lemma_div_pos_is_pos(l, s);
            let q = l / s;
            let r = l % s;
            if r == 0 {
                assert(l + s - 1 == q * s + (s - 1)) by (nonlinear_arith)
                    requires
                        l == s * q + r,
                        r == 0,
                ;
                vstd::arithmetic::div_mod::lemma_fundamental_div_mod_converse(
                    l + s - 1,
                    s,
                    q,
                    s - 1,
                );
            } else {
                assert(l + s - 1 == (q + 1) * s + (r - 1)) by (nonlinear_arith)
                    requires
                        l == s * q + r,
                ;
                vstd::arithmetic::div_mod::lemma_fundamental_div_mod_converse(
                    l + s - 1,
                    s,
                    q + 1,
                    r - 1,
                );
                assert(q < l) by (nonlinear_arith)
                    requires
                        l == s * q + r,
                        r > 0,
                        s > 0,
                        q >= 0,
                ;
            }
        }
        if left % self.size == 0 {
            full
        } else {
            full + 1
        }
    }

    /// The next chunk along the axis, or `None` after the last. Where the
    /// extent of the axis is a multiple of the chunk size every chunk is
    /// full.
    pub fn next(&mut self) -> (r: Option<ArrayBase<'a, A>>)
        requires
            old(self).wf(),
        ensures
            final(self).wf(),
            final(self).array() == old(self).array(),
            final(self).axis() == old(self).axis(),
            final(self).size() == old(self).size(),
            match r {
                Some(chunk) => {
                    let extent = old(self).array().layout.shape[old(self).axis()];
                    let width = chunk_extent(extent, old(self).size(), old(self).start());
                    &&& old(self).start() < extent
                    &&& 0 < width
                    &&& extent % old(self).size() == 0 ==> width == old(self).size()
                    &&& chunk@ == old(self).array().slice_axis(
                        old(self).axis(),
                        old(self).start(),
                        width,
                    )
                    &&& valid(chunk@)
                    &&& final(self).start() == old(self).start() + width
                },
                None => {
                    &&& old(self).start() >= old(self).array().layout.shape[old(self).axis()]
                    &&& final(self).start() == old(self).start()
                },
            },
    {
        if self.start >= self.end {
            return None;
        }
        let left = self.end - self.start;
        let width = if left < self.size {
            left
        } else {
            self.size
        };
        proof {
            use_type_invariant(&self.dim);
            self.dim.lemma_bounded();
            lemma_run_fits(
                self.dim@,
                self.axis.0 as int,
                self.start as int,
                width as int,
                self.data@.len() as int,
            );
            let s = self.size as int;
            let b = self.start as int;
            let e = self.end as int;
            vstd::arithmetic::div_mod::lemma_fundamental_div_mod(b, s);
            vstd::arithmetic::div_mod::lemma_fundamental_div_mod(e, s);
            if e % s == 0 {
                assert(e - b >= s) by (nonlinear_arith)
                    requires
                        b == s * (b / s),
                        e == s * (e / s),
                        b < e,
                        s > 0,
                ;
            }
            if width == s {
                let q = b / s;
                assert(b + s == (q + 1) * s + 0) by (nonlinear_arith)
                    requires
                        b == s * q,
                ;
                vstd::arithmetic::div_mod::lemma_fundamental_div_mod_converse(b + s, s, q + 1, 0);
            }
        }
        let dim = self.dim.slice_axis(self.axis, self.start, width);
        self.start += width;
        Some(ArrayBase::view_from_parts(dim, self.data))
    }
}

impl<'a, A> ArrayBase<'a, A> {
    /// A cursor over the elements in row-major order of their indices.
    pub fn iter<'b>(&'b self) -> (r: Iter<'b, A>)
        ensures
            r.wf(),
            r.array() == self@,
            r.count() == 0,
    {
        let data = self.raw_data();
        Iter { data, offsets: Offsets::new(self.raw_dim(), data.len()) }
    }

    /// A cursor over the elements with their indices, in row-major order.
    pub fn indexed_iter<'b>(&'b self) -> (r: IndexedIter<'b, A>)
        ensures
            r.wf(),
            r.array() == self@,
            r.count() == 0,
    {
        let data = self.raw_data();
        IndexedIter { data, offsets: Offsets::new(self.raw_dim(), data.len()) }
    }

    /// The elements in row-major order of their indices.
    pub fn to_vec(&self) -> (r: Vec<A>) where A: Copy
        ensures
            r@ == self@.flat(),
    {
        let ghost m = self@;
        let data = self.raw_data();
        let size = self.len();
        let mut it = Offsets::new(self.raw_dim(), data.len());
        let mut out: Vec<A> = Vec::new();
        let mut k: usize = 0;
        while k < size
            invariant
                k <= size,
                size == m.layout.size(),
                valid(m),
                data@ == m.buf,
                it.wf(),
                it.layout() == m.layout,
                it.count() == k,
                out.len() == k,
                forall|j: int| 0 <= j < k ==> #[trigger] out[j] == m.at(j),
            decreases size - k,
        {
            proof {
                lemma_unravel_within(m.layout.shape, k as int);
            }
            let pos = it.next().unwrap();
            out.push(data[pos]);
            k += 1;
        }
        proof {
            assert(out@ =~= m.flat());
        }
        out
    }

    /// A cursor over the parts of the array along one axis.
    pub fn axis_iter<'b>(&'b self, axis: Axis) -> (r: AxisIter<'b, A>)
        requires
            axis.0 < self@.layout.ndim(),
        ensures
            r.wf(),
            r.array() == self@,
            r.axis() == axis.0,
            r.index() == 0,
    {
        let data = self.raw_data();
        let dim = self.raw_dim().duplicate();
        let end = dim.len_of(axis);
        AxisIter { data, dim, axis, index: 0, end }
    }

    /// A cursor over the chunks of `size` indices along one axis; the last
    /// chunk holds what is left.
    pub fn axis_chunks_iter<'b>(&'b self, axis: Axis, size: usize) -> (r: AxisChunksIter<'b, A>)
        requires
            axis.0 < self@.layout.ndim(),
            size > 0,
        ensures
            r.wf(),
            r.array() == self@,
            r.axis() == axis.0,
            r.size() == size,
            r.start() == 0,
    {
        let data = self.raw_data();
        let dim = self.raw_dim().duplicate();
        let end = dim.len_of(axis);
        proof {
            assert(0int % (size as int) == 0) by (nonlinear_arith)
                requires
                    size > 0,
            ;
        }
        AxisChunksIter { data, dim, axis, size, start: 0, end }
    }

    /// A cursor over the chunks of exactly `size` indices along one axis.
    /// Fails where the axis cannot be cut so without a rest: where `size` is
    /// 0 or the extent of the axis is not a multiple of it.
    pub fn exact_chunks<'b>(&'b self, axis: Axis, size: usize) -> (r: Result<
        AxisChunksIter<'b, A>,
        ShapeError,
    >)
        requires
            axis.0 < self@.layout.ndim(),
        ensures
            match r {
                Ok(chunks) => {
                    &&& size > 0
                    &&& self@.layout.shape[axis.0 as int] % (size as int) == 0
                    &&& chunks.wf()
                    &&& chunks.array() == self@
                    &&& chunks.axis() == axis.0
                    &&& chunks.size() == size
                    &&& chunks.start() == 0
                },
                Err(e) => {
                    &&& e == ShapeError::UnevenChunks
                    &&& (size == 0 || self@.layout.shape[axis.0 as int] % (size as int) != 0)
                },
            },
    {
        if size == 0 || self.len_of(axis) % size != 0 {
            Err(ShapeError::UnevenChunks)
        } else {
            Ok(self.axis_chunks_iter(axis, size))
        }
    }
}

} // verus!
