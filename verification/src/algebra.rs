//! Folds where the operation is commutative and associative and has the
//! unit for its identity: there the order and the grouping of a fold do not
//! matter.

use vstd::prelude::*;
use crate::numeric::Monoid;
use crate::numeric::combine;
use crate::numeric::fold;
use crate::numeric::joined;
use crate::numeric::stripe;
use crate::numeric::unit;
use crate::numeric::unrolled;
use crate::scalar::Numeric;

verus! {

/// The operation of `op` on `A` is commutative and associative, and the
/// unit of `op` is its identity.
#[verifier::opaque]
pub open spec fn commutative_monoid<A: Numeric>(op: Monoid) -> bool {
    &&& forall|x: A, y: A| combine(op, x, y) == combine(op, y, x)
    &&& forall|x: A, y: A, z: A|
        combine(op, combine(op, x, y), z) == combine(op, x, combine(op, y, z))
    &&& forall|x: A| combine(op, unit::<A>(op), x) == x
}

/// The fold of `xs` from the unit.
pub open spec fn total<A: Numeric>(op: Monoid, xs: Seq<A>) -> A {
    fold(op, unit(op), xs)
}

pub proof fn lemma_commutes<A: Numeric>(op: Monoid, x: A, y: A)
    requires
        commutative_monoid::<A>(op),
    ensures
        combine(op, x, y) == combine(op, y, x),
{
    reveal(commutative_monoid);
}

pub proof fn lemma_associates<A: Numeric>(op: Monoid, x: A, y: A, z: A)
    requires
        commutative_monoid::<A>(op),
    ensures
        combine(op, combine(op, x, y), z) == combine(op, x, combine(op, y, z)),
{
    reveal(commutative_monoid);
}

pub proof fn lemma_unit<A: Numeric>(op: Monoid, x: A)
    requires
        commutative_monoid::<A>(op),
    ensures
        combine(op, unit::<A>(op), x) == x,
        combine(op, x, unit::<A>(op)) == x,
{
    reveal(commutative_monoid);
}

/// Two sums of two can trade their inner terms.
pub proof fn lemma_medial<A: Numeric>(op: Monoid, a: A, b: A, c: A, d: A)
    requires
        commutative_monoid::<A>(op),
    ensures
        combine(op, combine(op, a, c), combine(op, b, d)) == combine(
            op,
            combine(op, a, b),
            combine(op, c, d),
        ),
{
    lemma_associates(op, a, c, combine(op, b, d));
    lemma_associates(op, c, b, d);
    lemma_commutes(op, c, b);
    lemma_associates(op, b, c, d);
    lemma_associates(op, a, b, combine(op, c, d));
}

/// A fold from any start is the start combined with the fold from the unit.
pub proof fn lemma_fold_from<A: Numeric>(op: Monoid, init: A, xs: Seq<A>)
    requires
        commutative_monoid::<A>(op),
    ensures
        fold(op, init, xs) == combine(op, init, total(op, xs)),
    decreases xs.len(),
{
    if xs.len() == 0 {
        lemma_unit(op, init);
    } else {
        lemma_fold_from(op, init, xs.drop_last());
        lemma_associates(op, init, total(op, xs.drop_last()), xs.last());
    }
}

/// The fold of two sequences one after the other is the two folds combined.
pub proof fn lemma_fold_concat<A: Numeric>(op: Monoid, xs: Seq<A>, ys: Seq<A>)
    requires
        commutative_monoid::<A>(op),
    ensures
        total(op, xs + ys) == combine(op, total(op, xs), total(op, ys)),
    decreases ys.len(),
{
    if ys.len() == 0 {
        assert(xs + ys =~= xs);
        lemma_unit(op, total(op, xs));
    } else {
        lemma_fold_concat(op, xs, ys.drop_last());
        assert((xs + ys).drop_last() =~= xs + ys.drop_last());
        lemma_associates(op, total(op, xs), total(op, ys.drop_last()), ys.last());
    }
}

/// The fold of units is the unit.
pub proof fn lemma_fold_units<A: Numeric>(op: Monoid, xs: Seq<A>)
    requires
        commutative_monoid::<A>(op),
        forall|i: int| 0 <= i < xs.len() ==> xs[i] == unit::<A>(op),
    ensures
        total(op, xs) == unit::<A>(op),
    decreases xs.len(),
{
    if xs.len() > 0 {
        lemma_fold_units(op, xs.drop_last());
        lemma_unit(op, unit::<A>(op));
    }
}

/// The fold of sums taken place by place is the two folds combined.
pub proof fn lemma_fold_zip<A: Numeric>(op: Monoid, us: Seq<A>, vs: Seq<A>, ws: Seq<A>)
    requires
        commutative_monoid::<A>(op),
        us.len() == vs.len(),
        ws.len() == us.len(),
        forall|i: int| 0 <= i < ws.len() ==> ws[i] == combine(op, us[i], vs[i]),
    ensures
        total(op, ws) == combine(op, total(op, us), total(op, vs)),
    decreases ws.len(),
{
    if ws.len() == 0 {
        lemma_unit(op, unit::<A>(op));
    } else {
        lemma_fold_zip(op, us.drop_last(), vs.drop_last(), ws.drop_last());
        lemma_medial(
            op,
            total(op, us.drop_last()),
            us.last(),
            total(op, vs.drop_last()),
            vs.last(),
        );
    }
}

/// The fold of four values.
proof fn lemma_fold_four<A: Numeric>(op: Monoid, xs: Seq<A>)
    requires
        commutative_monoid::<A>(op),
        xs.len() == 4,
    ensures
        total(op, xs) == combine(op, combine(op, combine(op, xs[0], xs[1]), xs[2]), xs[3]),
{
    let t3 = xs.drop_last();
    let t2 = t3.drop_last();
    let t1 = t2.drop_last();
    let t0 = t1.drop_last();
    assert(total(op, t0) == unit::<A>(op));
    assert(total(op, t1) == combine(op, total(op, t0), t1.last()));
    assert(total(op, t2) == combine(op, total(op, t1), t2.last()));
    assert(total(op, t3) == combine(op, total(op, t2), t3.last()));
    assert(total(op, xs) == combine(op, total(op, t3), xs.last()));
    lemma_unit(op, xs[0]);
}

/// The eight stripes over some blocks of eight, joined, are the fold of
/// those blocks.
pub proof fn lemma_joined<A: Numeric>(op: Monoid, xs: Seq<A>, blocks: int)
    requires
        commutative_monoid::<A>(op),
        0 <= blocks,
        8 * blocks <= xs.len(),
    ensures
        joined(op, xs, blocks) == total(op, xs.take(8 * blocks)),
    decreases blocks,
{
    let u = unit::<A>(op);
    if blocks == 0 {
        lemma_unit(op, u);
        assert(joined(op, xs, 0) == u);
    } else {
        let b = blocks - 1;
        lemma_joined(op, xs, b);
        let at = 8 * b;
        let p = |j: int| stripe(op, xs, j, b);
        let x = |j: int| xs[at + j];
        assert forall|j: int| 0 <= j < 8 implies stripe(op, xs, j, blocks) == combine(
            op,
            #[trigger] p(j),
            x(j),
        ) by {}
        let q0 = combine(op, p(0), p(4));
        let q1 = combine(op, p(1), p(5));
        let q2 = combine(op, p(2), p(6));
        let q3 = combine(op, p(3), p(7));
        let y0 = combine(op, x(0), x(4));
        let y1 = combine(op, x(1), x(5));
        let y2 = combine(op, x(2), x(6));
        let y3 = combine(op, x(3), x(7));
        lemma_medial(op, p(0), p(4), x(0), x(4));
        lemma_medial(op, p(1), p(5), x(1), x(5));
        lemma_medial(op, p(2), p(6), x(2), x(6));
        lemma_medial(op, p(3), p(7), x(3), x(7));
        let a1 = combine(op, u, q0);
        let a2 = combine(op, a1, q1);
        let a3 = combine(op, a2, q2);
        let a4 = combine(op, a3, q3);
        assert(a4 == joined(op, xs, b));
        let s1 = combine(op, y0, y1);
        let s2 = combine(op, s1, y2);
        let s3 = combine(op, s2, y3);
        lemma_associates(op, u, q0, y0);
        lemma_medial(op, a1, q1, y0, y1);
        lemma_medial(op, a2, q2, s1, y2);
        lemma_medial(op, a3, q3, s2, y3);
        assert(joined(op, xs, blocks) == combine(op, a4, s3));
        let m1 = combine(op, x(0), x(1));
        let n1 = combine(op, x(4), x(5));
        let m2 = combine(op, m1, x(2));
        let n2 = combine(op, n1, x(6));
        let m3 = combine(op, m2, x(3));
        let n3 = combine(op, n2, x(7));
        lemma_medial(op, x(0), x(1), x(4), x(5));
        lemma_medial(op, m1, x(2), n1, x(6));
        lemma_medial(op, m2, x(3), n2, x(7));
        assert(s3 == combine(op, m3, n3));
        let low = xs.subrange(at, at + 4);
        let high = xs.subrange(at + 4, at + 8);
        lemma_fold_four(op, low);
        lemma_fold_four(op, high);
        lemma_fold_concat(op, low, high);
        lemma_fold_concat(op, xs.take(at), low + high);
        assert(xs.take(at) + (low + high) =~= xs.take(8 * blocks));
    }
}

/// Where the operation is commutative and associative, the fold in stripes
/// is the fold from the left.
pub proof fn lemma_unrolled<A: Numeric>(op: Monoid, xs: Seq<A>)
    requires
        commutative_monoid::<A>(op),
    ensures
        unrolled(op, xs) == total(op, xs),
{
    let blocks = xs.len() as int / 8;
    lemma_joined(op, xs, blocks);
    lemma_fold_from(op, joined(op, xs, blocks), xs.skip(8 * blocks));
    lemma_fold_concat(op, xs.take(8 * blocks), xs.skip(8 * blocks));
    assert(xs.take(8 * blocks) + xs.skip(8 * blocks) =~= xs);
}

/// Row `i` of a grid of values, `n` columns wide.
pub open spec fn line<A>(e: spec_fn(int, int) -> A, i: int, n: int) -> Seq<A> {
    Seq::new(n as nat, |j: int| e(i, j))
}

/// The fold of each row of a grid.
pub open spec fn line_totals<A: Numeric>(
    op: Monoid,
    e: spec_fn(int, int) -> A,
    rows: int,
    cols: int,
) -> Seq<A> {
    Seq::new(rows as nat, |i: int| total(op, line(e, i, cols)))
}

/// The fold of the folds of the rows of a grid.
pub open spec fn grid_total<A: Numeric>(
    op: Monoid,
    e: spec_fn(int, int) -> A,
    rows: int,
    cols: int,
) -> A {
    total(op, line_totals(op, e, rows, cols))
}

/// The grid with rows and columns exchanged.
pub open spec fn transposed<A>(e: spec_fn(int, int) -> A) -> spec_fn(int, int) -> A {
    |j: int, i: int| e(i, j)
}

/// The values of a grid row after row.
pub open spec fn grid_flat<A>(e: spec_fn(int, int) -> A, rows: int, cols: int) -> Seq<A> {
    Seq::new((rows * cols) as nat, |k: int| e(k / cols, k % cols))
}

/// Folding a grid by rows and folding it by columns give the same.
pub proof fn lemma_grid_exchange<A: Numeric>(
    op: Monoid,
    e: spec_fn(int, int) -> A,
    rows: int,
    cols: int,
)
    requires
        commutative_monoid::<A>(op),
        0 <= rows,
        0 <= cols,
    ensures
        grid_total(op, e, rows, cols) == grid_total(op, transposed(e), cols, rows),
    decreases rows,
{
    let te = transposed(e);
    let across = line_totals(op, te, cols, rows);
    if rows == 0 {
        assert forall|j: int| 0 <= j < across.len() implies across[j] == unit::<A>(op) by {
            assert(line(te, j, 0) =~= Seq::<A>::empty());
        }
        lemma_fold_units(op, across);
        assert(line_totals(op, e, 0, cols) =~= Seq::<A>::empty());
    } else {
        let prev = rows - 1;
        lemma_grid_exchange(op, e, prev, cols);
        let down = line_totals(op, e, rows, cols);
        assert(down.drop_last() =~= line_totals(op, e, prev, cols));
        let us = line_totals(op, te, cols, prev);
        let vs = line(e, prev, cols);
        assert forall|j: int| 0 <= j < across.len() implies across[j] == combine(
            op,
            us[j],
            vs[j],
        ) by {
            assert(line(te, j, rows).drop_last() =~= line(te, j, prev));
        }
        lemma_fold_zip(op, us, vs, across);
    }
}

/// Folding the values of a grid row after row is folding the folds of its
/// rows.
pub proof fn lemma_grid_flat<A: Numeric>(
    op: Monoid,
    e: spec_fn(int, int) -> A,
    rows: int,
    cols: int,
)
    requires
        commutative_monoid::<A>(op),
        0 <= rows,
        0 <= cols,
    ensures
        total(op, grid_flat(e, rows, cols)) == grid_total(op, e, rows, cols),
    decreases rows,
{
    if rows == 0 {
        assert(rows * cols == 0) by (nonlinear_arith)
            requires
                rows == 0,
        ;
        assert(grid_flat(e, rows, cols) =~= Seq::<A>::empty());
        assert(line_totals(op, e, rows, cols) =~= Seq::<A>::empty());
    } else {
        let prev = rows - 1;
        lemma_grid_flat(op, e, prev, cols);
        let before = grid_flat(e, prev, cols);
        let last = line(e, prev, cols);
        assert(rows * cols == prev * cols + cols) by (nonlinear_arith)
            requires
                prev == rows - 1,
        ;
        assert(0 <= prev * cols) by (nonlinear_arith)
            requires
                0 <= prev,
                0 <= cols,
        ;
        assert forall|k: int| 0 <= k < rows * cols implies #[trigger] grid_flat(e, rows, cols)[k]
            == (before + last)[k] by {
            if k >= prev * cols {
                vstd::arithmetic::div_mod::lemma_fundamental_div_mod_converse(
                    k,
                    cols,
                    prev,
                    k - prev * cols,
                );
            }
        }
        assert(grid_flat(e, rows, cols) =~= before + last);
        lemma_fold_concat(op, before, last);
        assert(line_totals(op, e, rows, cols).drop_last() =~= line_totals(op, e, prev, cols));
    }
}

} // verus!
