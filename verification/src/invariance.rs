//! Sums that do not depend on the order in which they are taken: summing a
//! matrix along one axis and then along the other gives the sum of all its
//! elements, where addition is commutative and associative.

use vstd::prelude::*;
use crate::algebra::commutative_monoid;
use crate::algebra::grid_flat;
use crate::algebra::grid_total;
use crate::algebra::lemma_fold_units;
use crate::algebra::lemma_grid_exchange;
use crate::algebra::lemma_grid_flat;
use crate::algebra::lemma_unrolled;
use crate::algebra::line;
use crate::algebra::line_totals;
use crate::algebra::total;
use crate::algebra::transposed;
use crate::array::ArrayModel;
use crate::array::valid;
use crate::layout::Layout;
use crate::layout::dot;
use crate::layout::lemma_column_major_dot;
use crate::layout::lemma_contiguous_range;
use crate::layout::lemma_product_nonnegative;
use crate::layout::lemma_row_major_dot;
use crate::layout::product;
use crate::layout::ravel;
use crate::layout::ravel_column_major;
use crate::layout::unravel;
use crate::layout::within;
use crate::numeric::Monoid;
use crate::numeric::unit;
use crate::scalar::Numeric;

verus! {

/// The elements of a matrix as a grid: row `i`, column `j`.
pub open spec fn grid_of<A>(m: ArrayModel<A>) -> spec_fn(int, int) -> A {
    |i: int, j: int| m.elem(seq![i, j])
}

/// A vector as an array in standard layout.
pub open spec fn vector<A>(xs: Seq<A>) -> ArrayModel<A> {
    ArrayModel { buf: xs, layout: Layout::standard(seq![xs.len() as int]) }
}

proof fn lemma_product_pair(s: Seq<int>)
    requires
        s.len() == 2,
    ensures
        product(s) == s[0] * s[1],
        product(s.drop_last()) == s[0],
        product(s.remove(0)) == s[1],
        product(s.remove(1)) == s[0],
{
    let front = s.drop_last();
    assert(front.drop_last() =~= Seq::<int>::empty());
    assert(product(front.drop_last()) == 1);
    assert(product(front) == 1 * s[0]);
    assert(s.remove(1) =~= front);
    let back = s.remove(0);
    assert(back.drop_last() =~= Seq::<int>::empty());
    assert(product(back.drop_last()) == 1);
    assert(product(back) == 1 * s[1]);
}

proof fn lemma_unravel_single(s: Seq<int>, p: int)
    requires
        s.len() == 1,
        0 <= p < s[0],
    ensures
        unravel(s, p) == seq![p],
{
    assert(s.drop_last() =~= Seq::<int>::empty());
    assert(unravel(s.drop_last(), p / s.last()) =~= Seq::<int>::empty());
    assert(p % s.last() == p) by (nonlinear_arith)
        requires
            0 <= p < s.last(),
    ;
    assert(unravel(s, p) =~= seq![p]);
}

/// The lanes of a matrix along its second axis are its rows, and those
/// along its first axis its columns.
proof fn lemma_lanes_of_matrix<A>(m: ArrayModel<A>, a: int, p: int)
    requires
        m.layout.wf(),
        m.layout.ndim() == 2,
        0 <= a < 2,
        0 <= p < m.layout.shape[1 - a],
    ensures
        a == 1 ==> m.lane(1, p) == line(grid_of(m), p, m.layout.shape[1]),
        a == 0 ==> m.lane(0, p) == line(transposed(grid_of(m)), p, m.layout.shape[0]),
{
    let shape = m.layout.shape;
    let rest = shape.remove(a);
    assert(rest =~= seq![shape[1 - a]]);
    lemma_unravel_single(rest, p);
    if a == 1 {
        assert forall|i: int| 0 <= i < shape[1] implies #[trigger] m.lane(1, p)[i] == line(
            grid_of(m),
            p,
            shape[1],
        )[i] by {
            assert(seq![p].insert(1, i) =~= seq![p, i]);
        }
        assert(m.lane(1, p) =~= line(grid_of(m), p, shape[1]));
    } else {
        assert forall|i: int| 0 <= i < shape[0] implies #[trigger] m.lane(0, p)[i] == line(
            transposed(grid_of(m)),
            p,
            shape[0],
        )[i] by {
            assert(seq![p].insert(0, i) =~= seq![i, p]);
        }
        assert(m.lane(0, p) =~= line(transposed(grid_of(m)), p, shape[0]));
    }
}

/// The sums of a matrix along an axis are the sums of its rows or of its
/// columns.
proof fn lemma_sum_axis_of_matrix<A: Numeric>(m: ArrayModel<A>, a: int)
    requires
        commutative_monoid::<A>(Monoid::Sum),
        m.layout.wf(),
        m.layout.ndim() == 2,
        0 <= a < 2,
    ensures
        a == 1 ==> m.sum_axis(1) == line_totals(
            Monoid::Sum,
            grid_of(m),
            m.layout.shape[0],
            m.layout.shape[1],
        ),
        a == 0 ==> m.sum_axis(0) == line_totals(
            Monoid::Sum,
            transposed(grid_of(m)),
            m.layout.shape[1],
            m.layout.shape[0],
        ),
{
    let shape = m.layout.shape;
    lemma_product_pair(shape);
    let sums = m.sum_axis(a);
    let lines = if a == 1 {
        line_totals(Monoid::Sum, grid_of(m), shape[0], shape[1])
    } else {
        line_totals(Monoid::Sum, transposed(grid_of(m)), shape[1], shape[0])
    };
    assert(sums.len() == lines.len());
    assert forall|p: int| 0 <= p < sums.len() implies sums[p] == lines[p] by {
        lemma_lanes_of_matrix(m, a, p);
        lemma_unrolled(Monoid::Sum, m.lane(a, p));
    }
    assert(sums =~= lines);
}

/// The sum of a vector along its one axis is the fold of its elements.
proof fn lemma_sum_axis_of_vector<A: Numeric>(xs: Seq<A>)
    ensures
        vector(xs).sum_axis(0) == seq![total(Monoid::Sum, xs)],
{
    let v = vector(xs);
    let shape = v.layout.shape;
    assert(shape.remove(0) =~= Seq::<int>::empty());
    assert(product(shape.remove(0)) == 1);
    let lane = v.lane(0, 0);
    assert(unravel(shape.remove(0), 0) =~= Seq::<int>::empty());
    assert forall|i: int| 0 <= i < xs.len() implies #[trigger] lane[i] == xs[i] by {
        let idx = Seq::<int>::empty().insert(0, i);
        assert(idx =~= seq![i]);
        assert(shape.skip(1) =~= Seq::<int>::empty());
        assert(v.layout.strides[0] == 1);
        assert(dot(idx.drop_last(), v.layout.strides.drop_last()) == 0);
        assert(dot(idx, v.layout.strides) == 0 + i * 1);
    }
    assert(lane =~= xs);
    assert(v.sum_axis(0) =~= seq![total(Monoid::Sum, xs)]);
}

/// The fold of the first rows of a matrix, row by row.
proof fn lemma_rows_fold<A: Numeric>(m: ArrayModel<A>, n: int)
    requires
        commutative_monoid::<A>(Monoid::Sum),
        m.layout.wf(),
        m.layout.ndim() == 2,
        0 <= n <= m.layout.shape[0],
    ensures
        m.rows_fold(Monoid::Sum, n) == total(
            Monoid::Sum,
            line_totals(Monoid::Sum, grid_of(m), n, m.layout.shape[1]),
        ),
    decreases n,
{
    let shape = m.layout.shape;
    let cols = shape[1];
    let lines = line_totals(Monoid::Sum, grid_of(m), n, cols);
    if n > 0 {
        let r = n - 1;
        lemma_rows_fold(m, r);
        assert(lines.drop_last() =~= line_totals(Monoid::Sum, grid_of(m), r, cols));
        assert(shape.drop_last() =~= seq![shape[0]]);
        lemma_unravel_single(shape.drop_last(), r);
        assert forall|j: int| 0 <= j < cols implies #[trigger] m.row(r)[j] == line(
            grid_of(m),
            r,
            cols,
        )[j] by {
            assert(seq![r].push(j) =~= seq![r, j]);
        }
        assert(m.row(r) =~= line(grid_of(m), r, cols));
        lemma_unrolled(Monoid::Sum, m.row(r));
    } else {
        assert(lines =~= Seq::<A>::empty());
    }
}

/// The sum of a matrix is the sum of the sums of its rows.
proof fn lemma_sum_of_matrix<A: Numeric>(m: ArrayModel<A>)
    requires
        commutative_monoid::<A>(Monoid::Sum),
        valid(m),
        m.layout.ndim() == 2,
    ensures
        m.sum() == grid_total(Monoid::Sum, grid_of(m), m.layout.shape[0], m.layout.shape[1]),
{
    let l = m.layout;
    let shape = l.shape;
    let rows = shape[0];
    let cols = shape[1];
    let e = grid_of(m);
    let op = Monoid::Sum;
    lemma_product_pair(shape);
    lemma_product_nonnegative(shape);
    if !l.is_contiguous() {
        lemma_rows_fold(m, rows);
    } else if l.size() == 0 {
        lemma_unrolled(op, m.memory());
        let lines = line_totals(op, e, rows, cols);
        if rows > 0 {
            assert(cols == 0) by (nonlinear_arith)
                requires
                    rows * cols == 0,
                    rows > 0,
            ;
            assert forall|i: int| 0 <= i < lines.len() implies lines[i] == unit::<A>(op) by {
                assert(line(e, i, 0) =~= Seq::<A>::empty());
            }
            lemma_fold_units(op, lines);
        } else {
            assert(lines =~= Seq::<A>::empty());
        }
    } else {
        lemma_unrolled(op, m.memory());
        lemma_contiguous_range(l, m.buf.len() as int);
        assert(rows > 0 && cols > 0) by (nonlinear_arith)
            requires
                rows * cols > 0,
                rows >= 0,
                cols >= 0,
        ;
        if l.is_row_major() {
            let flat = grid_flat(e, rows, cols);
            assert forall|k: int| 0 <= k < rows * cols implies #[trigger] m.memory()[k]
                == flat[k] by {
                vstd::arithmetic::div_mod::lemma_fundamental_div_mod(k, cols);
                vstd::arithmetic::div_mod::lemma_mod_bound(k, cols);
                let i = k / cols;
                let j = k % cols;
                assert(0 <= i < rows) by (nonlinear_arith)
                    requires
                        k == cols * i + j,
                        0 <= j < cols,
                        0 <= k < rows * cols,
                ;
                let idx = seq![i, j];
                assert(within(idx, shape));
                lemma_row_major_dot(shape, l.strides, 1, idx);
                assert(idx.drop_last() =~= seq![i]);
                assert(shape.drop_last() =~= seq![rows]);
                assert(ravel(shape.drop_last().drop_last(), idx.drop_last().drop_last()) == 0);
                assert(ravel(shape.drop_last(), idx.drop_last()) == 0 * rows + i);
                assert(ravel(shape, idx) == i * cols + j);
                assert(i * cols + j == k) by (nonlinear_arith)
                    requires
                        k == cols * i + j,
                ;
            }
            assert(m.memory() =~= flat);
            lemma_grid_flat(op, e, rows, cols);
        } else {
            let te = transposed(e);
            let flat = grid_flat(te, cols, rows);
            assert(cols * rows == rows * cols) by (nonlinear_arith);
            assert forall|k: int| 0 <= k < rows * cols implies #[trigger] m.memory()[k]
                == flat[k] by {
                vstd::arithmetic::div_mod::lemma_fundamental_div_mod(k, rows);
                vstd::arithmetic::div_mod::lemma_mod_bound(k, rows);
                let j = k / rows;
                let i = k % rows;
                assert(0 <= j < cols) by (nonlinear_arith)
                    requires
                        k == rows * j + i,
                        0 <= i < rows,
                        0 <= k < rows * cols,
                ;
                let idx = seq![i, j];
                assert(within(idx, shape));
                lemma_column_major_dot(shape, l.strides, idx);
                assert(idx.drop_last() =~= seq![i]);
                assert(shape.drop_last() =~= seq![rows]);
                assert(shape.drop_last().drop_last() =~= Seq::<int>::empty());
                assert(ravel_column_major(
                    shape.drop_last().drop_last(),
                    idx.drop_last().drop_last(),
                ) == 0);
                assert(product(shape.drop_last().drop_last()) == 1);
                assert(ravel_column_major(shape.drop_last(), idx.drop_last()) == 0 + i * 1);
                assert(ravel_column_major(shape, idx) == i + j * rows);
                assert(i + j * rows == k) by (nonlinear_arith)
                    requires
                        k == rows * j + i,
                ;
            }
            assert(m.memory() =~= flat);
            lemma_grid_flat(op, te, cols, rows);
            lemma_grid_exchange(op, e, rows, cols);
        }
    }
}

/// Summing a matrix along one axis and the sums along the axis that is left
/// gives the sum of all its elements, whichever axis comes first, where the
/// addition of the elements is commutative and associative with 0 for its
/// identity.
pub proof fn lemma_sum_axis_twice<A: Numeric>(m: ArrayModel<A>, a: int)
    requires
        commutative_monoid::<A>(Monoid::Sum),
        valid(m),
        m.layout.ndim() == 2,
        0 <= a < 2,
    ensures
        vector(m.sum_axis(a)).layout == Layout::standard(m.layout.shape.remove(a)),
        vector(m.sum_axis(a)).sum_axis(0) == seq![m.sum()],
{
    let shape = m.layout.shape;
    let e = grid_of(m);
    lemma_product_pair(shape);
    lemma_product_nonnegative(shape.remove(a));
    assert(shape.remove(a) =~= seq![shape[1 - a]]);
    lemma_sum_axis_of_matrix(m, a);
    lemma_sum_axis_of_vector(m.sum_axis(a));
    lemma_sum_of_matrix(m);
    lemma_grid_exchange(Monoid::Sum, e, shape[0], shape[1]);
}

} // verus!
