//! The mathematics of shapes and strides: how a logical index maps to a
//! position in a flat buffer, and how indices are counted in row-major order.

use vstd::arithmetic::div_mod::lemma_fundamental_div_mod;
use vstd::arithmetic::div_mod::lemma_fundamental_div_mod_converse;
use vstd::arithmetic::div_mod::lemma_mod_bound;
use vstd::prelude::*;

verus! {

/// Shape, strides and base offset as mathematical values. One extent and one
/// stride per axis; strides count elements and may be negative or zero.
pub struct Layout {
    pub shape: Seq<int>,
    pub strides: Seq<int>,
    pub offset: int,
}

/// The product of all entries; 1 for the empty sequence.
pub open spec fn product(s: Seq<int>) -> int
    decreases s.len(),
{
    if s.len() == 0 {
        1
    } else {
        product(s.drop_last()) * s.last()
    }
}

/// Every entry is an extent: zero or more.
pub open spec fn is_shape(s: Seq<int>) -> bool {
    forall|i: int| 0 <= i < s.len() ==> 0 <= #[trigger] s[i]
}

/// The shape with every zero extent replaced by 1.
pub open spec fn nonzero(s: Seq<int>) -> Seq<int> {
    Seq::new(s.len(), |i: int| if s[i] == 0 { 1 } else { s[i] })
}

/// The product of the non-zero extents: the bound under which every size
/// derived from a shape stays representable.
pub open spec fn capacity(s: Seq<int>) -> int {
    product(nonzero(s))
}

/// `idx` is a logical index of an array of shape `shape`.
pub open spec fn within(idx: Seq<int>, shape: Seq<int>) -> bool {
    &&& idx.len() == shape.len()
    &&& forall|i: int| 0 <= i < idx.len() ==> 0 <= #[trigger] idx[i] < shape[i]
}

/// The first index: 0 on each of `n` axes.
pub open spec fn origin(n: nat) -> Seq<int> {
    Seq::new(n, |i: int| 0int)
}

/// The sum of `idx[i] * strides[i]` over all axes.
pub open spec fn dot(idx: Seq<int>, strides: Seq<int>) -> int
    decreases idx.len(),
{
    if idx.len() == 0 {
        0
    } else {
        dot(idx.drop_last(), strides.drop_last()) + idx.last() * strides.last()
    }
}

/// The `k`-th index in row-major order: the last axis varies fastest.
pub open spec fn unravel(shape: Seq<int>, k: int) -> Seq<int>
    decreases shape.len(),
{
    if shape.len() == 0 {
        Seq::empty()
    } else {
        unravel(shape.drop_last(), k / shape.last()).push(k % shape.last())
    }
}

/// The place of `idx` in row-major order.
pub open spec fn ravel(shape: Seq<int>, idx: Seq<int>) -> int
    decreases shape.len(),
{
    if shape.len() == 0 {
        0
    } else {
        ravel(shape.drop_last(), idx.drop_last()) * shape.last() + idx.last()
    }
}

/// The index after `idx` in row-major order: the last coordinate that can
/// still grow does, and those behind it start over.
pub open spec fn successor(shape: Seq<int>, idx: Seq<int>) -> Seq<int>
    decreases idx.len(),
{
    if idx.len() == 0 {
        idx
    } else if idx.last() + 1 < shape.last() {
        idx.drop_last().push(idx.last() + 1)
    } else {
        successor(shape.drop_last(), idx.drop_last()).push(0)
    }
}

/// The place of `idx` in column-major order: the first axis varies fastest.
pub open spec fn ravel_column_major(shape: Seq<int>, idx: Seq<int>) -> int
    decreases shape.len(),
{
    if shape.len() == 0 {
        0
    } else {
        ravel_column_major(shape.drop_last(), idx.drop_last()) + idx.last() * product(
            shape.drop_last(),
        )
    }
}

/// Where the `p`-th index of the shape without axis `a` stands in the
/// row-major order of the whole shape, once `i` is put in at `a`.
pub open spec fn place(shape: Seq<int>, a: int, i: int, p: int) -> int {
    ravel(shape, unravel(shape.remove(a), p).insert(a, i))
}

/// The last index of a shape without zero extents.
pub open spec fn top(shape: Seq<int>) -> Seq<int> {
    Seq::new(shape.len(), |i: int| shape[i] - 1)
}

/// The index that lies lowest in the buffer: the last coordinate on every
/// axis with a negative stride, 0 on the others.
pub open spec fn lowest(shape: Seq<int>, strides: Seq<int>) -> Seq<int> {
    Seq::new(shape.len(), |i: int| if strides[i] < 0 { shape[i] - 1 } else { 0 })
}

/// The index that lies highest in the buffer: the last coordinate on every
/// axis with a positive stride, 0 on the others.
pub open spec fn highest(shape: Seq<int>, strides: Seq<int>) -> Seq<int> {
    Seq::new(shape.len(), |i: int| if strides[i] > 0 { shape[i] - 1 } else { 0 })
}

/// Row-major strides of a shape: the stride of an axis is the product of the
/// extents behind it.
pub open spec fn row_major(shape: Seq<int>) -> Seq<int> {
    Seq::new(shape.len(), |i: int| product(shape.skip(i + 1)))
}

/// The strides are those of `unit`-spaced row-major order, on every axis with
/// more than one index.
pub open spec fn row_major_by(shape: Seq<int>, strides: Seq<int>, unit: int) -> bool {
    &&& shape.len() == strides.len()
    &&& forall|i: int|
        0 <= i < shape.len() ==> #[trigger] shape[i] <= 1 || strides[i] == unit * product(
            shape.skip(i + 1),
        )
}

/// The strides are those of column-major order, on every axis with more than
/// one index.
pub open spec fn column_major_like(shape: Seq<int>, strides: Seq<int>) -> bool {
    &&& shape.len() == strides.len()
    &&& forall|i: int|
        0 <= i < shape.len() ==> #[trigger] shape[i] <= 1 || strides[i] == product(shape.take(i))
}

impl Layout {
    /// The number of axes.
    pub open spec fn ndim(self) -> nat {
        self.shape.len()
    }

    /// One stride per axis, and no negative extent.
    pub open spec fn wf(self) -> bool {
        &&& self.shape.len() == self.strides.len()
        &&& is_shape(self.shape)
    }

    /// The number of elements.
    pub open spec fn size(self) -> int {
        product(self.shape)
    }

    /// The buffer position of the element at `idx`.
    pub open spec fn position(self, idx: Seq<int>) -> int {
        self.offset + dot(idx, self.strides)
    }

    /// The buffer position of the `k`-th element in row-major order.
    pub open spec fn position_at(self, k: int) -> int {
        self.position(unravel(self.shape, k))
    }

    /// Every element lies inside a buffer of `len` elements.
    pub open spec fn fits(self, len: int) -> bool {
        forall|idx: Seq<int>| #[trigger] within(idx, self.shape) ==> 0 <= self.position(idx) < len
    }

    /// No two indices share a buffer position.
    pub open spec fn injective(self) -> bool {
        forall|a: Seq<int>, b: Seq<int>|
            #[trigger] within(a, self.shape) && #[trigger] within(b, self.shape) && self.position(
                a,
            ) == self.position(b) ==> a == b
    }

    /// The layout of a fresh array of this shape: row-major, from position 0.
    pub open spec fn standard(shape: Seq<int>) -> Layout {
        Layout { shape, strides: row_major(shape), offset: 0 }
    }

    /// Row-major order, but for the strides of axes with at most one index.
    /// An array without elements counts as ordered.
    pub open spec fn is_row_major(self) -> bool {
        self.size() == 0 || row_major_by(self.shape, self.strides, 1)
    }

    /// Column-major order, but for the strides of axes with at most one index.
    /// An array without elements counts as ordered.
    pub open spec fn is_column_major(self) -> bool {
        self.size() == 0 || column_major_like(self.shape, self.strides)
    }

    /// The elements lie side by side in the buffer, in one of the two orders.
    pub open spec fn is_contiguous(self) -> bool {
        self.is_row_major() || self.is_column_major()
    }

    /// The layout without axis `a`.
    pub open spec fn remove_axis(self, a: int) -> Layout {
        Layout { shape: self.shape.remove(a), strides: self.strides.remove(a), offset: self.offset }
    }

    /// The layout with a new axis of extent 1 at place `a`.
    pub open spec fn insert_axis(self, a: int) -> Layout {
        Layout {
            shape: self.shape.insert(a, 1),
            strides: self.strides.insert(a, 1),
            offset: self.offset,
        }
    }

    /// The layout of the part at index `i` of axis `a`: the axis is gone and
    /// the base has moved `i` strides along it.
    pub open spec fn index_axis(self, a: int, i: int) -> Layout {
        Layout {
            shape: self.shape.remove(a),
            strides: self.strides.remove(a),
            offset: self.offset + i * self.strides[a],
        }
    }

    /// The layout of the `len` indices of axis `a` that start at `start`.
    pub open spec fn slice_axis(self, a: int, start: int, len: int) -> Layout {
        Layout {
            shape: self.shape.update(a, len),
            strides: self.strides,
            offset: self.offset + start * self.strides[a],
        }
    }

    /// The layout of the part at index `i` of axis `a`, as a view holds it:
    /// where there are no elements the offset stays as it is.
    pub open spec fn part(self, a: int, i: int) -> Layout {
        if self.size() == 0 {
            self.remove_axis(a)
        } else {
            self.index_axis(a, i)
        }
    }

    /// The layout of a run of axis `a`, as a view holds it: where the run has
    /// no elements the offset stays as it is.
    pub open spec fn run(self, a: int, start: int, len: int) -> Layout {
        if self.size() == 0 || len == 0 {
            self.slice_axis(a, 0, len)
        } else {
            self.slice_axis(a, start, len)
        }
    }

    /// The axes are nested: taken from the last to the first, or from the
    /// first to the last, each with more than one index steps further than
    /// those before it reach together. An array without elements counts as
    /// nested.
    pub open spec fn is_nested(self) -> bool {
        ||| self.size() == 0
        ||| dominates(self.shape, self.strides)
        ||| dominates(self.shape.reverse(), self.strides.reverse())
    }

    /// The layout with the order of the axes reversed.
    pub open spec fn reversed_axes(self) -> Layout {
        Layout {
            shape: self.shape.reverse(),
            strides: self.strides.reverse(),
            offset: self.offset,
        }
    }
}

pub proof fn lemma_product_nonnegative(s: Seq<int>)
    requires
        is_shape(s),
    ensures
        0 <= product(s),
        product(s) > 0 <==> (forall|i: int| 0 <= i < s.len() ==> #[trigger] s[i] > 0),
    decreases s.len(),
{
    if s.len() > 0 {
        let p = s.drop_last();
        lemma_product_nonnegative(p);
        let a = product(p);
        let b = s.last();
        assert(0 <= a * b) by (nonlinear_arith)
            requires
                0 <= a,
                0 <= b,
        ;
        assert(a * b > 0 <==> (a > 0 && b > 0)) by (nonlinear_arith)
            requires
                0 <= a,
                0 <= b,
        ;
        if product(s) > 0 {
            assert forall|i: int| 0 <= i < s.len() implies #[trigger] s[i] > 0 by {
                if i < s.len() - 1 {
                    assert(p[i] > 0);
                }
            }
        }
        if forall|i: int| 0 <= i < s.len() ==> #[trigger] s[i] > 0 {
            assert forall|i: int| 0 <= i < p.len() implies #[trigger] p[i] > 0 by {
                assert(s[i] > 0);
            }
        }
    }
}

/// Taking one axis out divides the product by that axis's extent.
pub proof fn lemma_product_remove(s: Seq<int>, a: int)
    requires
        0 <= a < s.len(),
    ensures
        product(s) == product(s.remove(a)) * s[a],
    decreases s.len(),
{
    if a == s.len() - 1 {
        assert(s.remove(a) =~= s.drop_last());
    } else {
        let p = s.drop_last();
        lemma_product_remove(p, a);
        assert(s.remove(a).drop_last() =~= p.remove(a));
        assert(s.remove(a).last() == s.last());
        let x = product(p.remove(a));
        let y = s[a];
        let z = s.last();
        assert((x * y) * z == (x * z) * y) by (nonlinear_arith);
    }
}

/// Putting one axis in multiplies the product by the new extent.
pub proof fn lemma_product_insert(s: Seq<int>, a: int, n: int)
    requires
        0 <= a <= s.len(),
    ensures
        product(s.insert(a, n)) == product(s) * n,
{
    lemma_product_remove(s.insert(a, n), a);
    assert(s.insert(a, n).remove(a) =~= s);
}

pub proof fn lemma_product_update(s: Seq<int>, a: int, n: int)
    requires
        0 <= a < s.len(),
    ensures
        product(s.update(a, n)) == product(s.remove(a)) * n,
{
    lemma_product_remove(s.update(a, n), a);
    assert(s.update(a, n).remove(a) =~= s.remove(a));
}

/// The product splits where the first extent ends.
pub proof fn lemma_product_first(s: Seq<int>)
    requires
        s.len() > 0,
    ensures
        product(s) == s[0] * product(s.skip(1)),
{
    lemma_product_remove(s, 0);
    assert(s.remove(0) =~= s.skip(1));
    assert(product(s.skip(1)) * s[0] == s[0] * product(s.skip(1))) by (nonlinear_arith);
}

/// The product does not depend on the order of its factors being reversed.
pub proof fn lemma_product_reverse(s: Seq<int>)
    ensures
        product(s.reverse()) == product(s),
    decreases s.len(),
{
    if s.len() > 0 {
        let r = s.reverse();
        lemma_product_first(s);
        assert(r.drop_last() =~= s.skip(1).reverse());
        assert(r.last() == s[0]);
        lemma_product_reverse(s.skip(1));
        assert(product(s.skip(1)) * s[0] == s[0] * product(s.skip(1))) by (nonlinear_arith);
    } else {
        assert(s.reverse() =~= s);
    }
}

pub proof fn lemma_capacity_bounds(s: Seq<int>)
    requires
        is_shape(s),
    ensures
        1 <= capacity(s),
        product(s) <= capacity(s),
        forall|i: int| 0 <= i < s.len() ==> #[trigger] s[i] <= capacity(s),
    decreases s.len(),
{
    let z = nonzero(s);
    if s.len() > 0 {
        let p = s.drop_last();
        lemma_capacity_bounds(p);
        lemma_product_nonnegative(p);
        assert(z.drop_last() =~= nonzero(p));
        let a = product(p);
        let c = capacity(p);
        let b = s.last();
        let d = z.last();
        assert(a * b <= c * d && 1 <= c * d && c <= c * d && d <= c * d) by (nonlinear_arith)
            requires
                0 <= a <= c,
                1 <= c,
                0 <= b <= d,
                1 <= d,
        ;
        assert forall|i: int| 0 <= i < s.len() implies #[trigger] s[i] <= capacity(s) by {
            if i < s.len() - 1 {
                assert(p[i] <= c);
            }
        }
    }
}

pub proof fn lemma_capacity_remove(s: Seq<int>, a: int)
    requires
        is_shape(s),
        0 <= a < s.len(),
    ensures
        is_shape(s.remove(a)),
        capacity(s.remove(a)) <= capacity(s),
{
    let z = nonzero(s);
    lemma_product_remove(z, a);
    assert(z.remove(a) =~= nonzero(s.remove(a)));
    lemma_capacity_bounds(s.remove(a));
    let c = capacity(s.remove(a));
    let d = z[a];
    assert(c <= c * d) by (nonlinear_arith)
        requires
            1 <= c,
            1 <= d,
    ;
}

pub proof fn lemma_capacity_insert_one(s: Seq<int>, a: int)
    requires
        is_shape(s),
        0 <= a <= s.len(),
    ensures
        is_shape(s.insert(a, 1)),
        capacity(s.insert(a, 1)) == capacity(s),
        product(s.insert(a, 1)) == product(s),
{
    lemma_product_insert(nonzero(s), a, 1);
    lemma_product_insert(s, a, 1);
    assert(nonzero(s).insert(a, 1) =~= nonzero(s.insert(a, 1)));
    assert(capacity(s) * 1 == capacity(s));
    assert(product(s) * 1 == product(s));
}

/// A run of axes at either end has no more capacity than the whole shape.
pub proof fn lemma_capacity_part(s: Seq<int>, i: int)
    requires
        is_shape(s),
        0 <= i <= s.len(),
    ensures
        is_shape(s.take(i)),
        is_shape(s.skip(i)),
        capacity(s.take(i)) <= capacity(s),
        capacity(s.skip(i)) <= capacity(s),
    decreases s.len(),
{
    if s.len() == 0 {
        assert(s.take(i) =~= s);
        assert(s.skip(i) =~= s);
    } else {
        let p = s.drop_last();
        let n = s.len() - 1;
        lemma_capacity_remove(s, n);
        assert(s.remove(n) =~= p);
        if i <= n {
            lemma_capacity_part(p, i);
            assert(s.take(i) =~= p.take(i));
        } else {
            assert(s.take(i) =~= s);
        }
        if i == 0 {
            assert(s.skip(i) =~= s);
        } else {
            lemma_capacity_remove(s, 0);
            assert(s.remove(0) =~= s.skip(1));
            lemma_capacity_part(s.skip(1), i - 1);
            assert(s.skip(1).skip(i - 1) =~= s.skip(i));
        }
    }
}

pub proof fn lemma_capacity_reverse(s: Seq<int>)
    requires
        is_shape(s),
    ensures
        is_shape(s.reverse()),
        capacity(s.reverse()) == capacity(s),
        product(s.reverse()) == product(s),
{
    lemma_product_reverse(s);
    lemma_product_reverse(nonzero(s));
    assert(nonzero(s).reverse() =~= nonzero(s.reverse()));
}

/// Removing an axis divides the number of elements by the extent of that
/// axis.
pub proof fn lemma_remove_axis_size(l: Layout, a: int)
    requires
        l.wf(),
        0 <= a < l.ndim(),
    ensures
        l.remove_axis(a).size() * l.shape[a] == l.size(),
        l.shape[a] != 0 ==> l.remove_axis(a).size() == l.size() / l.shape[a],
{
    lemma_product_remove(l.shape, a);
    if l.shape[a] != 0 {
        let q = l.remove_axis(a).size();
        let d = l.shape[a];
        lemma_fundamental_div_mod_converse(l.size(), d, q, 0);
    }
}

/// The dot product of an index with one coordinate put in.
pub proof fn lemma_dot_insert(idx: Seq<int>, strides: Seq<int>, a: int, i: int)
    requires
        idx.len() + 1 == strides.len(),
        0 <= a <= idx.len(),
    ensures
        dot(idx.insert(a, i), strides) == dot(idx, strides.remove(a)) + i * strides[a],
    decreases idx.len(),
{
    let full = idx.insert(a, i);
    if a == idx.len() {
        assert(full.drop_last() =~= idx);
        assert(strides.remove(a) =~= strides.drop_last());
    } else {
        lemma_dot_insert(idx.drop_last(), strides.drop_last(), a, i);
        assert(full.drop_last() =~= idx.drop_last().insert(a, i));
        assert(strides.remove(a).drop_last() =~= strides.drop_last().remove(a));
        assert(strides.remove(a).last() == strides.last());
        assert(full.last() == idx.last());
    }
}

/// The dot product after one coordinate changed.
pub proof fn lemma_dot_update(idx: Seq<int>, strides: Seq<int>, a: int, v: int)
    requires
        idx.len() == strides.len(),
        0 <= a < idx.len(),
    ensures
        dot(idx.update(a, v), strides) == dot(idx, strides) + (v - idx[a]) * strides[a],
{
    lemma_dot_insert(idx.remove(a), strides, a, v);
    lemma_dot_insert(idx.remove(a), strides, a, idx[a]);
    assert(idx.remove(a).insert(a, v) =~= idx.update(a, v));
    assert(idx.remove(a).insert(a, idx[a]) =~= idx);
    assert((v - idx[a]) * strides[a] == v * strides[a] - idx[a] * strides[a]) by (nonlinear_arith);
}

/// The dot product splits where the first axis ends.
pub proof fn lemma_dot_first(idx: Seq<int>, strides: Seq<int>)
    requires
        idx.len() == strides.len(),
        idx.len() > 0,
    ensures
        dot(idx, strides) == idx[0] * strides[0] + dot(idx.skip(1), strides.skip(1)),
{
    lemma_dot_insert(idx.skip(1), strides, 0, idx[0]);
    assert(idx.skip(1).insert(0, idx[0]) =~= idx);
    assert(strides.remove(0) =~= strides.skip(1));
}

/// Reversing index and strides together keeps the dot product.
pub proof fn lemma_dot_reverse(idx: Seq<int>, strides: Seq<int>)
    requires
        idx.len() == strides.len(),
    ensures
        dot(idx.reverse(), strides.reverse()) == dot(idx, strides),
    decreases idx.len(),
{
    if idx.len() > 0 {
        lemma_dot_first(idx, strides);
        lemma_dot_reverse(idx.skip(1), strides.skip(1));
        assert(idx.reverse().drop_last() =~= idx.skip(1).reverse());
        assert(strides.reverse().drop_last() =~= strides.skip(1).reverse());
    } else {
        assert(idx.reverse() =~= idx);
    }
}

pub proof fn lemma_dot_origin(n: nat, strides: Seq<int>)
    requires
        strides.len() == n,
    ensures
        dot(origin(n), strides) == 0,
    decreases n,
{
    if n > 0 {
        lemma_dot_origin((n - 1) as nat, strides.drop_last());
        assert(origin(n).drop_last() =~= origin((n - 1) as nat));
        assert(origin(n).last() == 0);
        assert(origin(n).last() * strides.last() == 0);
    }
}

/// Coordinates of 0 behind an index add nothing to its dot product.
pub proof fn lemma_dot_padded(idx: Seq<int>, m: nat, strides: Seq<int>)
    requires
        idx.len() + m == strides.len(),
    ensures
        dot(idx + origin(m), strides) == dot(idx, strides.take(idx.len() as int)),
    decreases m,
{
    let full = idx + origin(m);
    if m == 0 {
        assert(full =~= idx);
        assert(strides.take(idx.len() as int) =~= strides);
    } else {
        lemma_dot_padded(idx, (m - 1) as nat, strides.drop_last());
        assert(full.drop_last() =~= idx + origin((m - 1) as nat));
        assert(strides.drop_last().take(idx.len() as int) =~= strides.take(idx.len() as int));
        assert(full.last() == 0);
        assert(full.last() * strides.last() == 0);
    }
}

proof fn lemma_within_prefix(idx: Seq<int>, shape: Seq<int>)
    requires
        within(idx, shape),
        shape.len() > 0,
    ensures
        within(idx.drop_last(), shape.drop_last()),
        0 <= idx.last() < shape.last(),
{
    assert forall|i: int| 0 <= i < idx.len() - 1 implies 0 <= #[trigger] idx.drop_last()[i]
        < shape.drop_last()[i] by {
        assert(0 <= idx[i] < shape[i]);
    }
    assert(0 <= idx[idx.len() - 1] < shape[idx.len() - 1]);
}

/// Quotient and remainder of a count within a non-empty shape.
pub proof fn lemma_split_count(shape: Seq<int>, k: int)
    requires
        is_shape(shape),
        shape.len() > 0,
        0 <= k < product(shape),
    ensures
        shape.last() > 0,
        0 <= k / shape.last() < product(shape.drop_last()),
        0 <= k % shape.last() < shape.last(),
        k == (k / shape.last()) * shape.last() + k % shape.last(),
{
    let p = product(shape.drop_last());
    let d = shape.last();
    lemma_product_nonnegative(shape);
    lemma_product_nonnegative(shape.drop_last());
    assert(d > 0) by (nonlinear_arith)
        requires
            p * d > 0,
            0 <= d,
            0 <= p,
    ;
    lemma_fundamental_div_mod(k, d);
    lemma_mod_bound(k, d);
    let q = k / d;
    let r = k % d;
    assert(0 <= q < p) by (nonlinear_arith)
        requires
            k == d * q + r,
            0 <= r < d,
            0 <= k < p * d,
    ;
    assert(d * q == q * d) by (nonlinear_arith);
}

pub proof fn lemma_unravel_within(shape: Seq<int>, k: int)
    requires
        is_shape(shape),
        0 <= k < product(shape),
    ensures
        within(unravel(shape, k), shape),
    decreases shape.len(),
{
    if shape.len() > 0 {
        lemma_split_count(shape, k);
        lemma_unravel_within(shape.drop_last(), k / shape.last());
        let idx = unravel(shape, k);
        assert forall|i: int| 0 <= i < idx.len() implies 0 <= #[trigger] idx[i] < shape[i] by {
            if i < idx.len() - 1 {
                assert(idx[i] == unravel(shape.drop_last(), k / shape.last())[i]);
                assert(shape[i] == shape.drop_last()[i]);
            }
        }
    }
}

pub proof fn lemma_ravel_bounds(shape: Seq<int>, idx: Seq<int>)
    requires
        within(idx, shape),
    ensures
        0 <= ravel(shape, idx) < product(shape),
    decreases shape.len(),
{
    if shape.len() > 0 {
        assert(within(idx.drop_last(), shape.drop_last())) by {
            assert forall|i: int| 0 <= i < idx.len() - 1 implies 0 <= #[trigger] idx.drop_last()[i]
                < shape.drop_last()[i] by {
                assert(0 <= idx[i] < shape[i]);
            }
        }
        lemma_ravel_bounds(shape.drop_last(), idx.drop_last());
        let r = ravel(shape.drop_last(), idx.drop_last());
        let p = product(shape.drop_last());
        let d = shape.last();
        let x = idx.last();
        assert(0 <= idx[idx.len() - 1] < shape[idx.len() - 1]);
        assert(0 <= r * d + x < p * d) by (nonlinear_arith)
            requires
                0 <= r < p,
                0 <= x < d,
        ;
    }
}

/// Counting an index and reading the count back gives the index.
pub proof fn lemma_unravel_ravel(shape: Seq<int>, idx: Seq<int>)
    requires
        within(idx, shape),
    ensures
        unravel(shape, ravel(shape, idx)) == idx,
    decreases shape.len(),
{
    if shape.len() > 0 {
        assert(within(idx.drop_last(), shape.drop_last())) by {
            assert forall|i: int| 0 <= i < idx.len() - 1 implies 0 <= #[trigger] idx.drop_last()[i]
                < shape.drop_last()[i] by {
                assert(0 <= idx[i] < shape[i]);
            }
        }
        lemma_unravel_ravel(shape.drop_last(), idx.drop_last());
        assert(0 <= idx[idx.len() - 1] < shape[idx.len() - 1]);
        lemma_fundamental_div_mod_converse(
            ravel(shape, idx),
            shape.last(),
            ravel(shape.drop_last(), idx.drop_last()),
            idx.last(),
        );
        assert(unravel(shape, ravel(shape, idx)) =~= idx);
    } else {
        assert(unravel(shape, ravel(shape, idx)) =~= idx);
    }
}

/// Reading a count as an index and counting it again gives the count.
pub proof fn lemma_ravel_unravel(shape: Seq<int>, k: int)
    requires
        is_shape(shape),
        0 <= k < product(shape),
    ensures
        ravel(shape, unravel(shape, k)) == k,
    decreases shape.len(),
{
    if shape.len() > 0 {
        lemma_split_count(shape, k);
        lemma_ravel_unravel(shape.drop_last(), k / shape.last());
        assert(unravel(shape, k).drop_last() =~= unravel(shape.drop_last(), k / shape.last()));
    }
}

/// Row-major order starts at the origin.
pub proof fn lemma_unravel_origin(shape: Seq<int>)
    requires
        is_shape(shape),
        product(shape) > 0,
    ensures
        unravel(shape, 0) == origin(shape.len()),
    decreases shape.len(),
{
    if shape.len() > 0 {
        lemma_split_count(shape, 0);
        lemma_unravel_origin(shape.drop_last());
        assert(0int / shape.last() == 0 && 0int % shape.last() == 0) by (nonlinear_arith)
            requires
                shape.last() > 0,
        ;
        assert(unravel(shape, 0) =~= origin(shape.len()));
    } else {
        assert(unravel(shape, 0) =~= origin(shape.len()));
    }
}

/// Row-major order moves from one count to the next by `successor`.
pub proof fn lemma_unravel_successor(shape: Seq<int>, k: int)
    requires
        is_shape(shape),
        0 <= k,
        k + 1 < product(shape),
    ensures
        unravel(shape, k + 1) == successor(shape, unravel(shape, k)),
    decreases shape.len(),
{
    if shape.len() > 0 {
        lemma_split_count(shape, k);
        lemma_split_count(shape, k + 1);
        let d = shape.last();
        let q = k / d;
        let r = k % d;
        let idx = unravel(shape, k);
        assert(idx.drop_last() =~= unravel(shape.drop_last(), q));
        if r + 1 < d {
            lemma_fundamental_div_mod_converse(k + 1, d, q, r + 1);
        } else {
            assert(k + 1 == (q + 1) * d + 0) by (nonlinear_arith)
                requires
                    k == q * d + r,
                    r + 1 == d,
            ;
            lemma_fundamental_div_mod_converse(k + 1, d, q + 1, 0);
            lemma_unravel_successor(shape.drop_last(), q);
        }
    }
}

/// The last index is counted last, in either order.
pub proof fn lemma_top(shape: Seq<int>)
    requires
        is_shape(shape),
        product(shape) > 0,
    ensures
        within(top(shape), shape),
        ravel(shape, top(shape)) == product(shape) - 1,
        ravel_column_major(shape, top(shape)) == product(shape) - 1,
    decreases shape.len(),
{
    lemma_product_nonnegative(shape);
    if shape.len() > 0 {
        let p = shape.drop_last();
        lemma_product_nonnegative(p);
        assert(forall|i: int| 0 <= i < p.len() ==> #[trigger] p[i] == shape[i]);
        lemma_top(p);
        assert(top(shape).drop_last() =~= top(p));
        let a = product(p);
        let d = shape.last();
        assert((a - 1) * d + (d - 1) == a * d - 1) by (nonlinear_arith);
        assert((a - 1) + (d - 1) * a == a * d - 1) by (nonlinear_arith);
    }
}

/// `place` by the last axis: either that is the axis put in, or the count
/// splits into the count of the axes before it and the last coordinate.
pub proof fn lemma_place_step(shape: Seq<int>, a: int, i: int, p: int)
    requires
        is_shape(shape),
        0 <= a < shape.len(),
        0 <= i < shape[a],
        0 <= p < product(shape.remove(a)),
    ensures
        a == shape.len() - 1 ==> place(shape, a, i, p) == p * shape.last() + i,
        a < shape.len() - 1 ==> {
            &&& shape.last() > 0
            &&& 0 <= p / shape.last() < product(shape.drop_last().remove(a))
            &&& 0 <= p % shape.last() < shape.last()
            &&& place(shape, a, i, p) == place(shape.drop_last(), a, i, p / shape.last())
                * shape.last() + p % shape.last()
        },
{
    let n = shape.len() as int;
    let sub = shape.remove(a);
    let idx = unravel(sub, p);
    let full = idx.insert(a, i);
    assert(is_shape(sub));
    lemma_unravel_within(sub, p);
    if a == n - 1 {
        assert(sub =~= shape.drop_last());
        assert(full =~= idx.push(i));
        assert(full.drop_last() =~= idx);
        lemma_ravel_unravel(sub, p);
    } else {
        let d = shape.last();
        assert(sub.last() == d);
        assert(sub.drop_last() =~= shape.drop_last().remove(a));
        lemma_split_count(sub, p);
        let inner = unravel(sub.drop_last(), p / d);
        assert(idx =~= inner.push(p % d));
        lemma_unravel_within(sub.drop_last(), p / d);
        assert(full.drop_last() =~= inner.insert(a, i));
        assert(full.last() == p % d);
    }
}

/// `place` keeps the order of the counts.
pub proof fn lemma_place_increasing(shape: Seq<int>, a: int, i: int, p: int, q: int)
    requires
        is_shape(shape),
        0 <= a < shape.len(),
        0 <= i < shape[a],
        0 <= p < q < product(shape.remove(a)),
    ensures
        place(shape, a, i, p) < place(shape, a, i, q),
    decreases shape.len(),
{
    lemma_place_step(shape, a, i, p);
    lemma_place_step(shape, a, i, q);
    let d = shape.last();
    if a == shape.len() - 1 {
        assert(p * d + i < q * d + i) by (nonlinear_arith)
            requires
                p < q,
                d > i,
                i >= 0,
        ;
    } else {
        let front = shape.drop_last();
        assert(is_shape(front));
        assert(front[a] == shape[a]);
        lemma_fundamental_div_mod(p, d);
        lemma_fundamental_div_mod(q, d);
        let pd = p / d;
        let qd = q / d;
        assert(pd <= qd) by (nonlinear_arith)
            requires
                p == d * pd + p % d,
                q == d * qd + q % d,
                0 <= p % d < d,
                0 <= q % d < d,
                p < q,
        ;
        if pd < qd {
            lemma_place_increasing(front, a, i, pd, qd);
            let x = place(front, a, i, pd);
            let y = place(front, a, i, qd);
            assert(x * d + p % d < y * d + q % d) by (nonlinear_arith)
                requires
                    x < y,
                    0 <= p % d < d,
                    0 <= q % d < d,
            ;
        } else {
            assert(p % d < q % d);
        }
    }
}

/// Where every index has a buffer position of its own, so have the elements
/// that a walk in row-major order meets: no two of them share one.
pub proof fn lemma_positions_distinct(l: Layout, j: int, k: int)
    requires
        l.wf(),
        l.injective(),
        0 <= j < l.size(),
        0 <= k < l.size(),
        j != k,
    ensures
        l.position_at(j) != l.position_at(k),
{
    lemma_unravel_within(l.shape, j);
    lemma_unravel_within(l.shape, k);
    lemma_ravel_unravel(l.shape, j);
    lemma_ravel_unravel(l.shape, k);
}

/// Under row-major strides the dot product of an index is its count.
pub proof fn lemma_row_major_dot(shape: Seq<int>, strides: Seq<int>, unit: int, idx: Seq<int>)
    requires
        row_major_by(shape, strides, unit),
        within(idx, shape),
    ensures
        dot(idx, strides) == unit * ravel(shape, idx),
    decreases shape.len(),
{
    if shape.len() > 0 {
        let n = shape.len() - 1;
        let p = shape.drop_last();
        let sp = strides.drop_last();
        let d = shape.last();
        lemma_within_prefix(idx, shape);
        assert(row_major_by(p, sp, unit * d)) by {
            assert forall|i: int| 0 <= i < p.len() implies #[trigger] p[i] <= 1 || sp[i] == (unit
                * d) * product(p.skip(i + 1)) by {
                assert(shape[i] == p[i]);
                assert(shape.skip(i + 1).drop_last() =~= p.skip(i + 1));
                let t = product(p.skip(i + 1));
                assert(unit * (t * d) == (unit * d) * t) by (nonlinear_arith);
            }
        }
        lemma_row_major_dot(p, sp, unit * d, idx.drop_last());
        let r = ravel(p, idx.drop_last());
        let x = idx.last();
        assert(shape[n] == d);
        assert(shape.skip(n + 1) =~= Seq::<int>::empty());
        assert(x * strides.last() == unit * x) by (nonlinear_arith)
            requires
                x == 0 || strides.last() == unit * 1,
        ;
        assert((unit * d) * r + unit * x == unit * (r * d + x)) by (nonlinear_arith);
    }
}

/// Under column-major strides the dot product of an index is its
/// column-major count.
pub proof fn lemma_column_major_dot(shape: Seq<int>, strides: Seq<int>, idx: Seq<int>)
    requires
        column_major_like(shape, strides),
        within(idx, shape),
    ensures
        dot(idx, strides) == ravel_column_major(shape, idx),
    decreases shape.len(),
{
    if shape.len() > 0 {
        let n = shape.len() - 1;
        let p = shape.drop_last();
        let sp = strides.drop_last();
        lemma_within_prefix(idx, shape);
        assert(column_major_like(p, sp)) by {
            assert forall|i: int| 0 <= i < p.len() implies #[trigger] p[i] <= 1 || sp[i]
                == product(p.take(i)) by {
                assert(shape[i] == p[i]);
                assert(shape.take(i) =~= p.take(i));
            }
        }
        lemma_column_major_dot(p, sp, idx.drop_last());
        assert(shape[n] == shape.last());
        assert(shape.take(n) =~= p);
        let x = idx.last();
        assert(x * strides.last() == x * product(p)) by (nonlinear_arith)
            requires
                x == 0 || strides.last() == product(p),
        ;
    }
}

pub proof fn lemma_ravel_column_major_bounds(shape: Seq<int>, idx: Seq<int>)
    requires
        within(idx, shape),
    ensures
        0 <= ravel_column_major(shape, idx) < product(shape),
    decreases shape.len(),
{
    if shape.len() > 0 {
        lemma_within_prefix(idx, shape);
        lemma_ravel_column_major_bounds(shape.drop_last(), idx.drop_last());
        let r = ravel_column_major(shape.drop_last(), idx.drop_last());
        let p = product(shape.drop_last());
        let d = shape.last();
        let x = idx.last();
        assert(0 <= r + x * p < p * d) by (nonlinear_arith)
            requires
                0 <= r < p,
                0 <= x < d,
        ;
    }
}

/// Two indices with the same column-major count are the same index.
pub proof fn lemma_ravel_column_major_injective(shape: Seq<int>, a: Seq<int>, b: Seq<int>)
    requires
        within(a, shape),
        within(b, shape),
        ravel_column_major(shape, a) == ravel_column_major(shape, b),
    ensures
        a == b,
    decreases shape.len(),
{
    if shape.len() > 0 {
        lemma_within_prefix(a, shape);
        lemma_within_prefix(b, shape);
        let sp = shape.drop_last();
        lemma_ravel_column_major_bounds(sp, a.drop_last());
        lemma_ravel_column_major_bounds(sp, b.drop_last());
        let ra = ravel_column_major(sp, a.drop_last());
        let rb = ravel_column_major(sp, b.drop_last());
        let p = product(sp);
        lemma_fundamental_div_mod_converse(ravel_column_major(shape, a), p, a.last(), ra);
        lemma_fundamental_div_mod_converse(ravel_column_major(shape, a), p, b.last(), rb);
        lemma_ravel_column_major_injective(sp, a.drop_last(), b.drop_last());
        assert(a =~= a.drop_last().push(a.last()));
        assert(b =~= b.drop_last().push(b.last()));
    } else {
        assert(a =~= b);
    }
}

/// A fresh row-major layout fills a buffer of its size exactly.
pub proof fn lemma_standard_fits(shape: Seq<int>)
    requires
        is_shape(shape),
    ensures
        Layout::standard(shape).wf(),
        Layout::standard(shape).is_row_major(),
        Layout::standard(shape).fits(product(shape)),
        forall|k: int|
            0 <= k < product(shape) ==> #[trigger] Layout::standard(shape).position_at(k) == k,
{
    let l = Layout::standard(shape);
    assert(l.is_row_major()) by {
        assert forall|i: int| 0 <= i < shape.len() implies #[trigger] shape[i] <= 1 || l.strides[i]
            == 1 * product(shape.skip(i + 1)) by {}
    }
    assert forall|idx: Seq<int>| #[trigger] within(idx, l.shape) implies 0 <= l.position(idx)
        < product(shape) by {
        lemma_row_major_dot(shape, l.strides, 1, idx);
        lemma_ravel_bounds(shape, idx);
    }
    assert forall|k: int| 0 <= k < product(shape) implies #[trigger] l.position_at(k) == k by {
        lemma_unravel_within(shape, k);
        lemma_row_major_dot(shape, l.strides, 1, unravel(shape, k));
        lemma_ravel_unravel(shape, k);
    }
}

/// In a contiguous layout the elements fill the positions from the base
/// offset on, without gaps.
pub proof fn lemma_contiguous_range(l: Layout, len: int)
    requires
        l.wf(),
        l.fits(len),
        l.is_contiguous(),
        l.size() > 0,
    ensures
        0 <= l.offset,
        l.offset + l.size() <= len,
{
    lemma_top(l.shape);
    let t = top(l.shape);
    assert(within(t, l.shape));
    if l.is_row_major() {
        lemma_row_major_dot(l.shape, l.strides, 1, t);
    } else {
        lemma_column_major_dot(l.shape, l.strides, t);
    }
    let z = origin(l.shape.len());
    lemma_product_nonnegative(l.shape);
    assert(within(z, l.shape));
    lemma_dot_origin(l.shape.len(), l.strides);
}

/// A contiguous layout gives every index a buffer position of its own.
pub proof fn lemma_contiguous_injective(l: Layout)
    requires
        l.wf(),
        l.is_contiguous(),
    ensures
        l.injective(),
{
    assert forall|a: Seq<int>, b: Seq<int>|
        #[trigger] within(a, l.shape) && #[trigger] within(b, l.shape) && l.position(a)
            == l.position(b) implies a == b by {
        lemma_product_nonnegative(l.shape);
        assert(forall|i: int| 0 <= i < l.shape.len() ==> 0 <= a[i] < #[trigger] l.shape[i]);
        if l.is_row_major() {
            lemma_row_major_dot(l.shape, l.strides, 1, a);
            lemma_row_major_dot(l.shape, l.strides, 1, b);
            lemma_unravel_ravel(l.shape, a);
            lemma_unravel_ravel(l.shape, b);
        } else {
            lemma_column_major_dot(l.shape, l.strides, a);
            lemma_column_major_dot(l.shape, l.strides, b);
            lemma_ravel_column_major_injective(l.shape, a, b);
        }
    }
}

/// A layout without elements fits any buffer.
pub proof fn lemma_empty_fits(l: Layout, len: int)
    requires
        l.wf(),
        l.size() == 0,
    ensures
        l.fits(len),
{
    lemma_product_nonnegative(l.shape);
    assert forall|idx: Seq<int>| #[trigger] within(idx, l.shape) implies 0 <= l.position(idx)
        < len by {
        assert(forall|i: int| 0 <= i < l.shape.len() ==> 0 <= idx[i] < #[trigger] l.shape[i]);
    }
}

/// An index of the part at `i` of axis `a` is, with `i` put in, an index of
/// the whole, at the same buffer position.
pub proof fn lemma_index_axis(l: Layout, a: int, i: int, idx: Seq<int>)
    requires
        l.wf(),
        0 <= a < l.ndim(),
        0 <= i < l.shape[a],
        within(idx, l.shape.remove(a)),
    ensures
        within(idx.insert(a, i), l.shape),
        l.index_axis(a, i).position(idx) == l.position(idx.insert(a, i)),
{
    let full = idx.insert(a, i);
    assert forall|j: int| 0 <= j < full.len() implies 0 <= #[trigger] full[j] < l.shape[j] by {
        if j < a {
            assert(0 <= idx[j] < l.shape.remove(a)[j]);
        } else if j > a {
            assert(0 <= idx[j - 1] < l.shape.remove(a)[j - 1]);
        }
    }
    lemma_dot_insert(idx, l.strides, a, i);
}

pub proof fn lemma_index_axis_fits(l: Layout, a: int, i: int, len: int)
    requires
        l.wf(),
        l.fits(len),
        0 <= a < l.ndim(),
        0 <= i < l.shape[a],
    ensures
        l.index_axis(a, i).wf(),
        l.index_axis(a, i).fits(len),
{
    let sub = l.index_axis(a, i);
    assert forall|idx: Seq<int>| #[trigger] within(idx, sub.shape) implies 0 <= sub.position(idx)
        < len by {
        lemma_index_axis(l, a, i, idx);
        assert(within(idx.insert(a, i), l.shape));
    }
}

/// An index of a run of axis `a` is, moved by the run's start, an index of
/// the whole, at the same buffer position.
pub proof fn lemma_slice_axis(l: Layout, a: int, start: int, n: int, idx: Seq<int>)
    requires
        l.wf(),
        0 <= a < l.ndim(),
        0 <= start,
        0 <= n,
        start + n <= l.shape[a],
        within(idx, l.shape.update(a, n)),
    ensures
        within(idx.update(a, start + idx[a]), l.shape),
        l.slice_axis(a, start, n).position(idx) == l.position(idx.update(a, start + idx[a])),
{
    let full = idx.update(a, start + idx[a]);
    assert forall|j: int| 0 <= j < full.len() implies 0 <= #[trigger] full[j] < l.shape[j] by {
        assert(0 <= idx[j] < l.shape.update(a, n)[j]);
    }
    lemma_dot_update(idx, l.strides, a, start + idx[a]);
}

pub proof fn lemma_slice_axis_fits(l: Layout, a: int, start: int, n: int, len: int)
    requires
        l.wf(),
        l.fits(len),
        0 <= a < l.ndim(),
        0 <= start,
        0 <= n,
        start + n <= l.shape[a],
    ensures
        l.slice_axis(a, start, n).wf(),
        l.slice_axis(a, start, n).fits(len),
{
    let sub = l.slice_axis(a, start, n);
    assert forall|idx: Seq<int>| #[trigger] within(idx, sub.shape) implies 0 <= sub.position(idx)
        < len by {
        lemma_slice_axis(l, a, start, n, idx);
        assert(within(idx.update(a, start + idx[a]), l.shape));
    }
}

/// The part at an index of an axis lies in the same buffer, and where it has
/// elements its first lies at the offset.
pub proof fn lemma_part_fits(l: Layout, a: int, i: int, len: int)
    requires
        l.wf(),
        l.fits(len),
        0 <= a < l.ndim(),
        0 <= i < l.shape[a],
    ensures
        l.part(a, i).wf(),
        l.part(a, i).fits(len),
        l.part(a, i).size() * l.shape[a] == l.size(),
        l.size() > 0 ==> 0 <= l.index_axis(a, i).offset < len,
{
    lemma_product_remove(l.shape, a);
    lemma_product_nonnegative(l.shape);
    lemma_product_nonnegative(l.shape.remove(a));
    let p = product(l.shape.remove(a));
    if l.size() == 0 {
        assert(p == 0) by (nonlinear_arith)
            requires
                p * l.shape[a] == 0,
                l.shape[a] > 0,
        ;
        lemma_empty_fits(l.remove_axis(a), len);
    } else {
        lemma_index_axis_fits(l, a, i, len);
        let sub = l.index_axis(a, i);
        assert(p > 0) by (nonlinear_arith)
            requires
                p * l.shape[a] > 0,
                p >= 0,
        ;
        let z = origin(sub.shape.len());
        assert(within(z, sub.shape));
        lemma_dot_origin(sub.shape.len(), sub.strides);
        assert(sub.position(z) == sub.offset);
    }
}

/// A run of an axis lies in the same buffer, and where it has elements its
/// first lies at the offset.
pub proof fn lemma_run_fits(l: Layout, a: int, start: int, n: int, len: int)
    requires
        l.wf(),
        l.fits(len),
        0 <= a < l.ndim(),
        0 <= start,
        0 <= n,
        start + n <= l.shape[a],
    ensures
        l.run(a, start, n).wf(),
        l.run(a, start, n).fits(len),
        l.run(a, start, n).size() == product(l.shape.remove(a)) * n,
        0 * l.strides[a] == 0,
        l.size() > 0 && n > 0 ==> 0 <= l.slice_axis(a, start, n).offset < len,
{
    lemma_product_update(l.shape, a, n);
    lemma_product_remove(l.shape, a);
    lemma_product_nonnegative(l.shape);
    lemma_product_nonnegative(l.shape.remove(a));
    let p = product(l.shape.remove(a));
    if l.size() == 0 || n == 0 {
        assert(p * n == 0) by (nonlinear_arith)
            requires
                n == 0 || p * l.shape[a] == 0,
                0 <= p,
                0 <= n <= l.shape[a],
        ;
        lemma_empty_fits(l.slice_axis(a, 0, n), len);
    } else {
        lemma_slice_axis_fits(l, a, start, n, len);
        let sub = l.slice_axis(a, start, n);
        assert(p * n > 0) by (nonlinear_arith)
            requires
                p * l.shape[a] > 0,
                0 <= p,
                0 < n,
        ;
        lemma_product_nonnegative(sub.shape);
        let z = origin(sub.shape.len());
        assert(within(z, sub.shape));
        lemma_dot_origin(sub.shape.len(), sub.strides);
        assert(sub.position(z) == sub.offset);
    }
}

pub proof fn lemma_reversed_axes_fits(l: Layout, len: int)
    requires
        l.wf(),
        l.fits(len),
    ensures
        l.reversed_axes().wf(),
        l.reversed_axes().fits(len),
        l.reversed_axes().size() == l.size(),
{
    let r = l.reversed_axes();
    lemma_product_reverse(l.shape);
    assert forall|idx: Seq<int>| #[trigger] within(idx, r.shape) implies 0 <= r.position(idx)
        < len by {
        let back = idx.reverse();
        assert forall|i: int| 0 <= i < back.len() implies 0 <= #[trigger] back[i] < l.shape[i] by {
            assert(0 <= idx[idx.len() - 1 - i] < r.shape[idx.len() - 1 - i]);
        }
        assert(within(back, l.shape));
        lemma_dot_reverse(back, l.strides);
        assert(back.reverse() =~= idx);
    }
}

/// No index lies lower in the buffer than `lowest`, and none higher than
/// `highest`.
pub proof fn lemma_span(shape: Seq<int>, strides: Seq<int>, idx: Seq<int>)
    requires
        shape.len() == strides.len(),
        within(idx, shape),
    ensures
        within(lowest(shape, strides), shape),
        within(highest(shape, strides), shape),
        dot(lowest(shape, strides), strides) <= dot(idx, strides) <= dot(
            highest(shape, strides),
            strides,
        ),
    decreases shape.len(),
{
    let lo = lowest(shape, strides);
    let hi = highest(shape, strides);
    assert forall|i: int| 0 <= i < shape.len() implies 0 <= #[trigger] lo[i] < shape[i] by {
        assert(0 <= idx[i] < shape[i]);
    }
    assert forall|i: int| 0 <= i < shape.len() implies 0 <= #[trigger] hi[i] < shape[i] by {
        assert(0 <= idx[i] < shape[i]);
    }
    if shape.len() > 0 {
        lemma_within_prefix(idx, shape);
        lemma_span(shape.drop_last(), strides.drop_last(), idx.drop_last());
        assert(lo.drop_last() =~= lowest(shape.drop_last(), strides.drop_last()));
        assert(hi.drop_last() =~= highest(shape.drop_last(), strides.drop_last()));
        let x = idx.last();
        let d = shape.last();
        let s = strides.last();
        assert(lo.last() * s <= x * s <= hi.last() * s) by (nonlinear_arith)
            requires
                0 <= x < d,
                lo.last() == (if s < 0 { d - 1 } else { 0 }),
                hi.last() == (if s > 0 { d - 1 } else { 0 }),
        ;
    }
}

/// The indices that are lowest and highest on the first axes and 0 on the
/// rest are indices too.
pub proof fn lemma_span_prefix(shape: Seq<int>, strides: Seq<int>, k: int)
    requires
        shape.len() == strides.len(),
        is_shape(shape),
        product(shape) > 0,
        0 <= k <= shape.len(),
    ensures
        within(lowest(shape.take(k), strides.take(k)) + origin((shape.len() - k) as nat), shape),
        within(highest(shape.take(k), strides.take(k)) + origin((shape.len() - k) as nat), shape),
        dot(lowest(shape.take(k), strides.take(k)) + origin((shape.len() - k) as nat), strides)
            == dot(lowest(shape.take(k), strides.take(k)), strides.take(k)),
        dot(highest(shape.take(k), strides.take(k)) + origin((shape.len() - k) as nat), strides)
            == dot(highest(shape.take(k), strides.take(k)), strides.take(k)),
{
    let rest = (shape.len() - k) as nat;
    let lo = lowest(shape.take(k), strides.take(k));
    let hi = highest(shape.take(k), strides.take(k));
    lemma_product_nonnegative(shape);
    assert forall|i: int| 0 <= i < shape.len() implies 0 <= #[trigger] (lo + origin(rest))[i]
        < shape[i] by {
        assert(shape[i] > 0);
    }
    assert forall|i: int| 0 <= i < shape.len() implies 0 <= #[trigger] (hi + origin(rest))[i]
        < shape[i] by {
        assert(shape[i] > 0);
    }
    lemma_dot_padded(lo, rest, strides);
    lemma_dot_padded(hi, rest, strides);
}

/// The absolute value of a stride.
pub open spec fn magnitude(x: int) -> int {
    if x < 0 {
        -x
    } else {
        x
    }
}

/// How far apart two elements can lie in the buffer: the sum, over all
/// axes, of the last coordinate times the magnitude of the stride.
pub open spec fn reach(shape: Seq<int>, strides: Seq<int>) -> int
    decreases shape.len(),
{
    if shape.len() == 0 {
        0
    } else {
        (shape[0] - 1) * magnitude(strides[0]) + reach(shape.skip(1), strides.skip(1))
    }
}

/// Every axis with more than one index steps further than the axes behind
/// it reach together.
pub open spec fn dominates(shape: Seq<int>, strides: Seq<int>) -> bool {
    &&& shape.len() == strides.len()
    &&& forall|i: int|
        0 <= i < shape.len() && #[trigger] shape[i] > 1 ==> magnitude(strides[i]) > reach(
            shape.skip(i + 1),
            strides.skip(i + 1),
        )
}

/// Two indices lie no further apart in the buffer than the shape reaches.
pub proof fn lemma_reach(shape: Seq<int>, strides: Seq<int>, a: Seq<int>, b: Seq<int>)
    requires
        shape.len() == strides.len(),
        within(a, shape),
        within(b, shape),
    ensures
        0 <= reach(shape, strides),
        -reach(shape, strides) <= dot(a, strides) - dot(b, strides) <= reach(shape, strides),
    decreases shape.len(),
{
    if shape.len() > 0 {
        lemma_dot_first(a, strides);
        lemma_dot_first(b, strides);
        assert(within(a.skip(1), shape.skip(1))) by {
            assert forall|i: int| 0 <= i < a.len() - 1 implies 0 <= #[trigger] a.skip(1)[i]
                < shape.skip(1)[i] by {
                assert(0 <= a[i + 1] < shape[i + 1]);
            }
        }
        assert(within(b.skip(1), shape.skip(1))) by {
            assert forall|i: int| 0 <= i < b.len() - 1 implies 0 <= #[trigger] b.skip(1)[i]
                < shape.skip(1)[i] by {
                assert(0 <= b[i + 1] < shape[i + 1]);
            }
        }
        lemma_reach(shape.skip(1), strides.skip(1), a.skip(1), b.skip(1));
        let x = a[0];
        let y = b[0];
        let d = shape[0];
        let s = strides[0];
        let m = magnitude(s);
        assert(0 <= x < d && 0 <= y < d);
        assert(-((d - 1) * m) <= x * s - y * s <= (d - 1) * m && 0 <= (d - 1) * m)
            by (nonlinear_arith)
            requires
                0 <= x < d,
                0 <= y < d,
                m == (if s < 0 { -s } else { s }),
        ;
    }
}

/// Where every stride dominates, two indices with one buffer position are
/// one index.
pub proof fn lemma_dominates_injective(
    shape: Seq<int>,
    strides: Seq<int>,
    a: Seq<int>,
    b: Seq<int>,
)
    requires
        dominates(shape, strides),
        within(a, shape),
        within(b, shape),
        dot(a, strides) == dot(b, strides),
    ensures
        a == b,
    decreases shape.len(),
{
    if shape.len() == 0 {
        assert(a =~= b);
    } else {
        let rest = shape.skip(1);
        let steps = strides.skip(1);
        lemma_dot_first(a, strides);
        lemma_dot_first(b, strides);
        assert(within(a.skip(1), rest)) by {
            assert forall|i: int| 0 <= i < a.len() - 1 implies 0 <= #[trigger] a.skip(1)[i]
                < rest[i] by {
                assert(0 <= a[i + 1] < shape[i + 1]);
            }
        }
        assert(within(b.skip(1), rest)) by {
            assert forall|i: int| 0 <= i < b.len() - 1 implies 0 <= #[trigger] b.skip(1)[i]
                < rest[i] by {
                assert(0 <= b[i + 1] < shape[i + 1]);
            }
        }
        lemma_reach(rest, steps, a.skip(1), b.skip(1));
        let x = a[0];
        let y = b[0];
        let s = strides[0];
        let m = magnitude(s);
        assert(0 <= x < shape[0] && 0 <= y < shape[0]);
        if x != y {
            assert(shape[0] > 1);
            assert(rest =~= shape.skip(0int + 1));
            assert(m > reach(rest, steps));
            assert(x * s - y * s >= m || x * s - y * s <= -m) by (nonlinear_arith)
                requires
                    x != y,
                    m == (if s < 0 { -s } else { s }),
            ;
            assert(false);
        }
        assert(dominates(rest, steps)) by {
            assert forall|i: int| 0 <= i < rest.len() && #[trigger] rest[i] > 1 implies magnitude(
                steps[i],
            ) > reach(rest.skip(i + 1), steps.skip(i + 1)) by {
                assert(shape[i + 1] > 1);
                assert(rest.skip(i + 1) =~= shape.skip(i + 2));
                assert(steps.skip(i + 1) =~= strides.skip(i + 2));
            }
        }
        lemma_dominates_injective(rest, steps, a.skip(1), b.skip(1));
        assert(a =~= seq![x] + a.skip(1));
        assert(b =~= seq![y] + b.skip(1));
    }
}

/// A nested layout gives every index a buffer position of its own.
pub proof fn lemma_nested_injective(l: Layout)
    requires
        l.wf(),
        l.is_nested(),
    ensures
        l.injective(),
{
    assert forall|a: Seq<int>, b: Seq<int>|
        #[trigger] within(a, l.shape) && #[trigger] within(b, l.shape) && l.position(a)
            == l.position(b) implies a == b by {
        lemma_product_nonnegative(l.shape);
        assert(forall|i: int| 0 <= i < l.shape.len() ==> 0 <= a[i] < #[trigger] l.shape[i]);
        if dominates(l.shape, l.strides) {
            lemma_dominates_injective(l.shape, l.strides, a, b);
        } else {
            let ra = a.reverse();
            let rb = b.reverse();
            let rs = l.shape.reverse();
            assert forall|i: int| 0 <= i < ra.len() implies 0 <= #[trigger] ra[i] < rs[i] by {
                assert(0 <= a[a.len() - 1 - i] < l.shape[a.len() - 1 - i]);
            }
            assert forall|i: int| 0 <= i < rb.len() implies 0 <= #[trigger] rb[i] < rs[i] by {
                assert(0 <= b[b.len() - 1 - i] < l.shape[b.len() - 1 - i]);
            }
            lemma_dot_reverse(a, l.strides);
            lemma_dot_reverse(b, l.strides);
            lemma_dominates_injective(rs, l.strides.reverse(), ra, rb);
            assert(a =~= ra.reverse());
            assert(b =~= rb.reverse());
        }
    }
}

} // verus!
