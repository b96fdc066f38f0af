//! What an element type must offer for the reductions: identities,
//! arithmetic, and the conversion of a count into an element.

use vstd::prelude::*;
use crate::algebra::commutative_monoid;
use crate::extremes::lawful;
use crate::extremes::unordered_are_incomparable;
use crate::extremes::weakly_ordered;
use crate::numeric::Monoid;

verus! {

/// An element type that can be summed, multiplied and averaged. Each
/// operation is a function of its arguments: what it computes is named by the
/// specification function beside it. Those have a default, so that an
/// implementation in ordinary Rust has only the operations to write; a
/// verified one states what its operations compute.
pub trait Numeric: Copy {
    /// The identity of addition.
    open spec fn zero_spec() -> Self {
        arbitrary()
    }

    /// The identity of multiplication.
    open spec fn one_spec() -> Self {
        arbitrary()
    }

    open spec fn add_spec(self, rhs: Self) -> Self {
        arbitrary()
    }

    open spec fn mul_spec(self, rhs: Self) -> Self {
        arbitrary()
    }

    /// Whether a value may stand under the division bar.
    open spec fn divides(self) -> bool {
        arbitrary()
    }

    open spec fn div_spec(self, rhs: Self) -> Self {
        arbitrary()
    }

    /// A count as an element, where the type can hold it.
    open spec fn from_usize_spec(n: usize) -> Option<Self> {
        arbitrary()
    }

    fn zero() -> (r: Self)
        ensures
            r == Self::zero_spec(),
    ;

    fn one() -> (r: Self)
        ensures
            r == Self::one_spec(),
    ;

    fn add(self, rhs: Self) -> (r: Self)
        ensures
            r == self.add_spec(rhs),
    ;

    fn mul(self, rhs: Self) -> (r: Self)
        ensures
            r == self.mul_spec(rhs),
    ;

    fn div(self, rhs: Self) -> (r: Self)
        requires
            rhs.divides(),
        ensures
            r == self.div_spec(rhs),
    ;

    fn from_usize(n: usize) -> (r: Option<Self>)
        ensures
            r == Self::from_usize_spec(n),
    ;
}

/// An element type with subtraction, a fused multiply-add, a square root and
/// a partial order besides: what the variance and the standard deviation
/// need.
pub trait Real: Numeric + PartialOrd {
    open spec fn sub_spec(self, rhs: Self) -> Self {
        arbitrary()
    }

    /// `self * a + b`, rounded once where the type rounds.
    open spec fn mul_add_spec(self, a: Self, b: Self) -> Self {
        arbitrary()
    }

    /// Whether the square root of a value can be taken.
    open spec fn has_sqrt(self) -> bool {
        arbitrary()
    }

    open spec fn sqrt_spec(self) -> Self {
        arbitrary()
    }

    fn sub(self, rhs: Self) -> (r: Self)
        ensures
            r == self.sub_spec(rhs),
    ;

    fn mul_add(self, a: Self, b: Self) -> (r: Self)
        ensures
            r == self.mul_add_spec(a, b),
    ;

    fn sqrt(self) -> (r: Self)
        requires
            self.has_sqrt(),
        ensures
            r == self.sqrt_spec(),
    ;
}

/// `num_traits::Zero::zero` of `i64`, which is the number 0.
#[verifier::external_body]
fn i64_zero() -> (r: i64)
    ensures
        r == 0,
{
    <i64 as num_traits::Zero>::zero()
}

/// `num_traits::One::one` of `i64`, which is the number 1.
#[verifier::external_body]
fn i64_one() -> (r: i64)
    ensures
        r == 1,
{
    <i64 as num_traits::One>::one()
}

/// `num_traits::FromPrimitive::from_usize` of `i64`: the same number where
/// it is at most `i64::MAX`, and nothing above that.
#[verifier::external_body]
fn i64_from_usize(n: usize) -> (r: Option<i64>)
    ensures
        r == (if n <= i64::MAX {
            Some(n as i64)
        } else {
            None
        }),
{
    <i64 as num_traits::FromPrimitive>::from_usize(n)
}

/// `r` is the square root of `x`, rounded down.
pub open spec fn is_floor_sqrt(x: int, r: int) -> bool {
    0 <= r && r * r <= x < (r + 1) * (r + 1)
}

/// The square root of a natural number, rounded down.
pub open spec fn floor_sqrt(x: int) -> int {
    choose|r: int| is_floor_sqrt(x, r)
}

pub proof fn lemma_floor_sqrt_unique(x: int, r: int)
    requires
        is_floor_sqrt(x, r),
    ensures
        floor_sqrt(x) == r,
{
    let s = floor_sqrt(x);
    assert(is_floor_sqrt(x, s));
    assert(s == r) by (nonlinear_arith)
        requires
            0 <= r,
            0 <= s,
            r * r <= x < (r + 1) * (r + 1),
            s * s <= x < (s + 1) * (s + 1),
    ;
}

/// The square root of a non-negative `i64`, rounded down, by bisection.
pub fn isqrt(x: i64) -> (r: i64)
    requires
        0 <= x,
    ensures
        r == floor_sqrt(x as int),
        is_floor_sqrt(x as int, r as int),
{
    let mut lo: i64 = 0;
    let mut hi: i64 = 3037000500;
    assert(3037000500int * 3037000500int > i64::MAX) by (nonlinear_arith);
    while hi - lo > 1
        invariant
            0 <= lo < hi <= 3037000500,
            lo * lo <= x < hi * hi,
        decreases hi - lo,
    {
        let mid: i64 = lo + (hi - lo) / 2;
        assert(0 <= mid * mid <= 9223372030926249001) by (nonlinear_arith)
            requires
                0 <= mid <= 3037000499,
        ;
        if mid * mid <= x {
            lo = mid;
        } else {
            hi = mid;
        }
    }
    proof {
        assert(hi == lo + 1);
        lemma_floor_sqrt_unique(x as int, lo as int);
    }
    lo
}

/// `i64` with the arithmetic of two's complement: sums, differences and
/// products wrap around, quotients round toward zero, and roots round down.
impl Numeric for i64 {
    open spec fn zero_spec() -> i64 {
        0
    }

    open spec fn one_spec() -> i64 {
        1
    }

    open spec fn add_spec(self, rhs: i64) -> i64 {
        self.wrapping_add(rhs)
    }

    open spec fn mul_spec(self, rhs: i64) -> i64 {
        self.wrapping_mul(rhs)
    }

    open spec fn divides(self) -> bool {
        self != 0
    }

    open spec fn div_spec(self, rhs: i64) -> i64 {
        match self.checked_div(rhs) {
            Some(q) => q,
            None => i64::MIN,
        }
    }

    open spec fn from_usize_spec(n: usize) -> Option<i64> {
        if n <= i64::MAX {
            Some(n as i64)
        } else {
            None
        }
    }

    fn zero() -> (r: i64) {
        i64_zero()
    }

    fn one() -> (r: i64) {
        i64_one()
    }

    fn add(self, rhs: i64) -> (r: i64) {
        self.wrapping_add(rhs)
    }

    fn mul(self, rhs: i64) -> (r: i64) {
        self.wrapping_mul(rhs)
    }

    fn div(self, rhs: i64) -> (r: i64) {
        match self.checked_div(rhs) {
            Some(q) => q,
            None => i64::MIN,
        }
    }

    fn from_usize(n: usize) -> (r: Option<i64>) {
        i64_from_usize(n)
    }
}

impl Real for i64 {
    open spec fn sub_spec(self, rhs: i64) -> i64 {
        self.wrapping_sub(rhs)
    }

    open spec fn mul_add_spec(self, a: i64, b: i64) -> i64 {
        self.wrapping_mul(a).wrapping_add(b)
    }

    open spec fn has_sqrt(self) -> bool {
        0 <= self
    }

    open spec fn sqrt_spec(self) -> i64 {
        floor_sqrt(self as int) as i64
    }

    fn sub(self, rhs: i64) -> (r: i64) {
        self.wrapping_sub(rhs)
    }

    fn mul_add(self, a: i64, b: i64) -> (r: i64) {
        self.wrapping_mul(a).wrapping_add(b)
    }

    fn sqrt(self) -> (r: i64) {
        isqrt(self)
    }
}

/// The addition of `i64` that wraps around is commutative and associative
/// and has 0 for its identity.
pub proof fn lemma_i64_sum_is_commutative_monoid()
    ensures
        commutative_monoid::<i64>(Monoid::Sum),
{
    reveal(commutative_monoid);
}

/// The order of `i64` behaves: every value is ordered, and `<` is a strict
/// order with `>` for its converse.
pub proof fn lemma_i64_is_ordered()
    ensures
        lawful::<i64>(),
        unordered_are_incomparable::<i64>(),
        weakly_ordered::<i64>(),
{
}

} // verus!
