//! The greatest and the least element of an array, and what they amount to
//! in an order that behaves: when they are absent, and that what they give
//! bounds the elements.

use vstd::prelude::*;
use vstd::std_specs::cmp::PartialEqIs;
use vstd::std_specs::cmp::PartialEqSpec;
use vstd::std_specs::cmp::PartialOrdIs;
use vstd::std_specs::cmp::PartialOrdSpec;
use crate::array::ArrayBase;
use crate::array::valid;
use crate::iter::Offsets;
use crate::layout::lemma_unravel_within;

verus! {

/// The four extremes: the greatest and the least element, each either
/// spoiled by an element that is not ordered or passing over such elements.
#[derive(Clone, Copy, Debug, PartialEq, Eq, Structural)]
pub enum Extreme {
    Max,
    NanMax,
    Min,
    NanMin,
}

/// The comparisons of `A` are functions of their arguments.
pub open spec fn lawful<A: PartialOrd>() -> bool {
    A::obeys_eq_spec() && A::obeys_partial_cmp_spec()
}

/// A value is ordered when it equals itself. A value that does not, such as
/// a NaN, cannot be compared with any other.
pub open spec fn ordered<A: PartialOrd>(x: A) -> bool {
    x.is_eq(&x)
}

/// One step of the search for an extreme: which of the best so far and the
/// next element is kept.
pub open spec fn pick<A: PartialOrd>(kind: Extreme, acc: A, x: A) -> A {
    match kind {
        Extreme::Max => if ordered(acc) && !x.is_lt(&acc) {
            x
        } else {
            acc
        },
        Extreme::NanMax => if ordered(acc) && !x.is_gt(&acc) {
            acc
        } else {
            x
        },
        Extreme::Min => if ordered(acc) && !acc.is_lt(&x) {
            x
        } else {
            acc
        },
        Extreme::NanMin => if ordered(acc) && !x.is_lt(&acc) {
            acc
        } else {
            x
        },
    }
}

/// The best of `xs` so far, starting from `init`, from the left.
pub open spec fn sweep<A: PartialOrd>(kind: Extreme, init: A, xs: Seq<A>) -> A
    decreases xs.len(),
{
    if xs.len() == 0 {
        init
    } else {
        pick(kind, sweep(kind, init, xs.drop_last()), xs.last())
    }
}

/// The extreme of `xs`: the search starts from the first element, takes
/// every element in turn, and its result counts only where it is ordered.
pub open spec fn extreme<A: PartialOrd>(kind: Extreme, xs: Seq<A>) -> Option<A> {
    if xs.len() == 0 {
        None
    } else {
        let best = sweep(kind, xs[0], xs);
        if ordered(best) {
            Some(best)
        } else {
            None
        }
    }
}

fn keep<'b, A: PartialOrd>(kind: Extreme, acc: &'b A, x: &'b A) -> (r: &'b A)
    ensures
        *r == *acc || *r == *x,
        lawful::<A>() ==> *r == pick(kind, *acc, *x),
{
    match kind {
        Extreme::Max => if acc == acc && !(x < acc) {
            x
        } else {
            acc
        },
        Extreme::NanMax => if acc == acc && !(x > acc) {
            acc
        } else {
            x
        },
        Extreme::Min => if acc == acc && !(acc < x) {
            x
        } else {
            acc
        },
        Extreme::NanMin => if acc == acc && !(x < acc) {
            acc
        } else {
            x
        },
    }
}

impl<'a, A> ArrayBase<'a, A> {
    /// The extreme of the given kind among all elements, taken in row-major
    /// order: `None` for an array without elements and where the search
    /// ends on an element that is not ordered.
    pub fn extreme(&self, kind: Extreme) -> (r: Option<&A>) where A: PartialOrd
        ensures
            self@.layout.size() == 0 ==> r.is_none(),
            match r {
                Some(x) => exists|k: int| 0 <= k < self@.layout.size() && *x == self@.at(k),
                None => true,
            },
            lawful::<A>() ==> match r {
                Some(x) => extreme(kind, self@.flat()) == Some(*x),
                None => extreme(kind, self@.flat()).is_none(),
            },
    {
        let first = match self.first() {
            Some(f) => f,
            None => {
                return None;
            },
        };
        let ghost m = self@;
        let ghost xs = m.flat();
        let data = self.raw_data();
        let size = self.len();
        let mut it = Offsets::new(self.raw_dim(), data.len());
        let mut acc: &A = first;
        let mut k: usize = 0;
        while k < size
            invariant
                k <= size,
                size == m.layout.size(),
                size > 0,
                xs == m.flat(),
                valid(m),
                data@ == m.buf,
                it.wf(),
                it.layout() == m.layout,
                it.count() == k,
                exists|j: int| 0 <= j < size && *acc == m.at(j),
                lawful::<A>() ==> *acc == sweep(kind, xs[0], xs.take(k as int)),
            decreases size - k,
        {
            proof {
                lemma_unravel_within(m.layout.shape, k as int);
                assert(xs.take(k + 1).drop_last() =~= xs.take(k as int));
                assert(xs[k as int] == m.at(k as int));
            }
            let pos = it.next().unwrap();
            acc = keep(kind, acc, &data[pos]);
            k += 1;
        }
        proof {
            assert(xs.take(size as int) =~= xs);
        }
        if acc == acc {
            Some(acc)
        } else {
            None
        }
    }

    /// The greatest element, or `None` where the array has no elements or
    /// one of them is not ordered.
    pub fn max(&self) -> (r: Option<&A>) where A: PartialOrd
        ensures
            self@.layout.size() == 0 ==> r.is_none(),
            match r {
                Some(x) => exists|k: int| 0 <= k < self@.layout.size() && *x == self@.at(k),
                None => true,
            },
            lawful::<A>() ==> match r {
                Some(x) => extreme(Extreme::Max, self@.flat()) == Some(*x),
                None => extreme(Extreme::Max, self@.flat()).is_none(),
            },
    {
        self.extreme(Extreme::Max)
    }

    /// The greatest of the ordered elements, or `None` where there is none.
    pub fn nanmax(&self) -> (r: Option<&A>) where A: PartialOrd
        ensures
            self@.layout.size() == 0 ==> r.is_none(),
            match r {
                Some(x) => exists|k: int| 0 <= k < self@.layout.size() && *x == self@.at(k),
                None => true,
            },
            lawful::<A>() ==> match r {
                Some(x) => extreme(Extreme::NanMax, self@.flat()) == Some(*x),
                None => extreme(Extreme::NanMax, self@.flat()).is_none(),
            },
    {
        self.extreme(Extreme::NanMax)
    }

    /// The least element, or `None` where the array has no elements or one
    /// of them is not ordered.
    pub fn min(&self) -> (r: Option<&A>) where A: PartialOrd
        ensures
            self@.layout.size() == 0 ==> r.is_none(),
            match r {
                Some(x) => exists|k: int| 0 <= k < self@.layout.size() && *x == self@.at(k),
                None => true,
            },
            lawful::<A>() ==> match r {
                Some(x) => extreme(Extreme::Min, self@.flat()) == Some(*x),
                None => extreme(Extreme::Min, self@.flat()).is_none(),
            },
    {
        self.extreme(Extreme::Min)
    }

    /// The least of the ordered elements, or `None` where there is none.
    pub fn nanmin(&self) -> (r: Option<&A>) where A: PartialOrd
        ensures
            self@.layout.size() == 0 ==> r.is_none(),
            match r {
                Some(x) => exists|k: int| 0 <= k < self@.layout.size() && *x == self@.at(k),
                None => true,
            },
            lawful::<A>() ==> match r {
                Some(x) => extreme(Extreme::NanMin, self@.flat()) == Some(*x),
                None => extreme(Extreme::NanMin, self@.flat()).is_none(),
            },
    {
        self.extreme(Extreme::NanMin)
    }
}

/// `x < y`.
pub open spec fn less<A: PartialOrd>(x: A, y: A) -> bool {
    x.is_lt(&y)
}

/// `x > y`.
pub open spec fn greater<A: PartialOrd>(x: A, y: A) -> bool {
    x.is_gt(&y)
}

/// A value that is not ordered is neither less nor greater than any value,
/// and no value is less or greater than it.
pub open spec fn unordered_are_incomparable<A: PartialOrd>() -> bool {
    &&& forall|x: A, y: A| !ordered(x) ==> !#[trigger] less(x, y)
    &&& forall|x: A, y: A| !ordered(x) ==> !#[trigger] less(y, x)
    &&& forall|x: A, y: A| !ordered(x) ==> !#[trigger] greater(x, y)
    &&& forall|x: A, y: A| !ordered(x) ==> !#[trigger] greater(y, x)
}

/// Among ordered values `<` is a strict weak order, and `>` is its converse.
pub open spec fn weakly_ordered<A: PartialOrd>() -> bool {
    &&& forall|x: A, y: A| #[trigger] greater(x, y) == less(y, x)
    &&& forall|x: A, y: A| #[trigger] less(x, y) ==> !less(y, x)
    &&& forall|x: A, y: A, z: A|
        ordered(x) && ordered(y) && ordered(z) && #[trigger] less(x, z) ==> #[trigger] less(x, y)
            || less(y, z)
}

/// The extreme spoils: it keeps to an element that is not ordered.
pub open spec fn spoils(kind: Extreme) -> bool {
    kind == Extreme::Max || kind == Extreme::Min
}

/// The extreme looks for the greatest element.
pub open spec fn rises(kind: Extreme) -> bool {
    kind == Extreme::Max || kind == Extreme::NanMax
}

/// The best so far is where the search started or one of the elements.
pub proof fn lemma_sweep_is_member<A: PartialOrd>(kind: Extreme, init: A, xs: Seq<A>)
    ensures
        sweep(kind, init, xs) == init || exists|i: int|
            0 <= i < xs.len() && sweep(kind, init, xs) == xs[i],
    decreases xs.len(),
{
    if xs.len() > 0 {
        let front = xs.drop_last();
        lemma_sweep_is_member(kind, init, front);
        let before = sweep(kind, init, front);
        let after = sweep(kind, init, xs);
        if after == xs.last() {
            assert(after == xs[xs.len() - 1]);
        } else if before != init {
            let i = choose|i: int| 0 <= i < front.len() && before == front[i];
            assert(after == xs[i]);
        }
    }
}

/// Whether the best so far is ordered: a spoiling search once it has met an
/// element that is not ordered never is again, and a search that passes
/// over such elements is from the first ordered element on.
pub proof fn lemma_sweep_ordered<A: PartialOrd>(kind: Extreme, init: A, xs: Seq<A>)
    requires
        unordered_are_incomparable::<A>(),
    ensures
        spoils(kind) ==> (ordered(sweep(kind, init, xs)) <==> ordered(init) && forall|i: int|
            0 <= i < xs.len() ==> ordered(#[trigger] xs[i])),
        !spoils(kind) ==> (ordered(sweep(kind, init, xs)) <==> ordered(init) || exists|i: int|
            0 <= i < xs.len() && ordered(#[trigger] xs[i])),
    decreases xs.len(),
{
    if xs.len() > 0 {
        let front = xs.drop_last();
        let last = xs.last();
        lemma_sweep_ordered(kind, init, front);
        let before = sweep(kind, init, front);
        let after = pick(kind, before, last);
        assert(after == sweep(kind, init, xs));
        assert(!ordered(last) ==> !less(last, before) && !less(before, last) && !greater(
            last,
            before,
        ));
        if spoils(kind) {
            if ordered(init) && forall|i: int| 0 <= i < xs.len() ==> ordered(#[trigger] xs[i]) {
                assert forall|i: int| 0 <= i < front.len() implies ordered(
                    #[trigger] front[i],
                ) by {
                    assert(ordered(xs[i]));
                }
                assert(ordered(xs[xs.len() - 1]));
            }
            if ordered(after) {
                assert forall|i: int| 0 <= i < xs.len() implies ordered(#[trigger] xs[i]) by {
                    if i < front.len() {
                        assert(ordered(front[i]));
                    }
                }
            }
        } else {
            if ordered(after) && !ordered(init) {
                if ordered(last) {
                    assert(ordered(xs[xs.len() - 1]));
                } else {
                    let i = choose|i: int| 0 <= i < front.len() && ordered(#[trigger] front[i]);
                    assert(ordered(xs[i]));
                }
            }
            if exists|i: int| 0 <= i < xs.len() && ordered(#[trigger] xs[i]) {
                let i = choose|i: int| 0 <= i < xs.len() && ordered(#[trigger] xs[i]);
                if i < front.len() {
                    assert(ordered(front[i]));
                }
            }
        }
    }
}

/// `max` and `min` are absent exactly for an array without elements and for
/// one with an element that is not ordered; `nanmax` and `nanmin` exactly
/// where no element is ordered.
pub proof fn lemma_extreme_absent<A: PartialOrd>(kind: Extreme, xs: Seq<A>)
    requires
        unordered_are_incomparable::<A>(),
    ensures
        spoils(kind) ==> (extreme(kind, xs).is_none() <==> xs.len() == 0 || exists|i: int|
            0 <= i < xs.len() && !ordered(#[trigger] xs[i])),
        !spoils(kind) ==> (extreme(kind, xs).is_none() <==> forall|i: int|
            0 <= i < xs.len() ==> !ordered(#[trigger] xs[i])),
{
    if xs.len() > 0 {
        lemma_sweep_ordered(kind, xs[0], xs);
    }
}

/// `r` bounds `y` in the direction of the search: it is not less than `y`
/// in a search for the greatest, and not greater in a search for the least.
pub open spec fn bounds<A: PartialOrd>(kind: Extreme, r: A, y: A) -> bool {
    if rises(kind) {
        !less(r, y)
    } else {
        !less(y, r)
    }
}

/// What bounded an ordered value before a step still bounds it after.
proof fn lemma_pick_keeps_bounds<A: PartialOrd>(kind: Extreme, before: A, last: A, y: A)
    requires
        weakly_ordered::<A>(),
        ordered(before),
        ordered(y),
        ordered(pick(kind, before, last)),
        bounds(kind, before, y),
    ensures
        bounds(kind, pick(kind, before, last), y),
{
    let after = pick(kind, before, last);
    if after != before {
        assert(after == last);
        assert(greater(last, before) == less(before, last));
        assert(less(last, before) ==> !less(before, last));
        assert(less(before, last) ==> !less(last, before));
        assert(less(last, y) ==> less(last, before) || less(before, y));
        assert(less(y, last) ==> less(y, before) || less(before, last));
    }
}

/// The result of a step bounds the element that the step took.
proof fn lemma_pick_bounds_last<A: PartialOrd>(kind: Extreme, before: A, last: A)
    requires
        weakly_ordered::<A>(),
        ordered(last),
        ordered(pick(kind, before, last)),
    ensures
        bounds(kind, pick(kind, before, last), last),
{
    assert(greater(last, before) == less(before, last));
    assert(less(last, before) ==> !less(before, last));
    assert(less(before, last) ==> !less(last, before));
    assert(less(last, last) ==> !less(last, last));
}

/// The best so far bounds the value from which the search started, where
/// both are ordered.
pub proof fn lemma_sweep_bounds_start<A: PartialOrd>(kind: Extreme, init: A, xs: Seq<A>)
    requires
        unordered_are_incomparable::<A>(),
        weakly_ordered::<A>(),
        ordered(init),
        ordered(sweep(kind, init, xs)),
    ensures
        bounds(kind, sweep(kind, init, xs), init),
    decreases xs.len(),
{
    if xs.len() == 0 {
        assert(less(init, init) ==> !less(init, init));
    } else {
        let front = xs.drop_last();
        let before = sweep(kind, init, front);
        lemma_sweep_ordered(kind, init, front);
        lemma_sweep_ordered(kind, init, xs);
        if spoils(kind) {
            assert forall|j: int| 0 <= j < front.len() implies ordered(#[trigger] front[j]) by {
                assert(ordered(xs[j]));
            }
        }
        lemma_sweep_bounds_start(kind, init, front);
        lemma_pick_keeps_bounds(kind, before, xs.last(), init);
    }
}

/// The best so far bounds every ordered element met so far.
pub proof fn lemma_sweep_bounds<A: PartialOrd>(kind: Extreme, init: A, xs: Seq<A>, i: int)
    requires
        unordered_are_incomparable::<A>(),
        weakly_ordered::<A>(),
        ordered(sweep(kind, init, xs)),
        0 <= i < xs.len(),
        ordered(xs[i]),
    ensures
        bounds(kind, sweep(kind, init, xs), xs[i]),
    decreases xs.len(),
{
    let front = xs.drop_last();
    let before = sweep(kind, init, front);
    if i == xs.len() - 1 {
        lemma_pick_bounds_last(kind, before, xs.last());
    } else {
        assert(front[i] == xs[i]);
        lemma_sweep_ordered(kind, init, front);
        lemma_sweep_ordered(kind, init, xs);
        if spoils(kind) {
            assert forall|j: int| 0 <= j < front.len() implies ordered(#[trigger] front[j]) by {
                assert(ordered(xs[j]));
            }
        }
        lemma_sweep_bounds(kind, init, front, i);
        lemma_pick_keeps_bounds(kind, before, xs.last(), xs[i]);
    }
}

/// In an order that behaves, what `max` and `nanmax` give is less than no
/// ordered element, and what `min` and `nanmin` give is greater than none.
pub proof fn lemma_extreme_bounds<A: PartialOrd>(kind: Extreme, xs: Seq<A>, i: int)
    requires
        unordered_are_incomparable::<A>(),
        weakly_ordered::<A>(),
        extreme(kind, xs).is_some(),
        0 <= i < xs.len(),
        ordered(xs[i]),
    ensures
        bounds(kind, extreme(kind, xs).unwrap(), xs[i]),
{
    lemma_sweep_bounds(kind, xs[0], xs, i);
}

} // verus!
