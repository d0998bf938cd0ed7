//! The numbers that coordinates are made of, and the objects that a spatial
//! index can hold.

use crate::boundingrect::BoundingRect;
use crate::point_traits::PointN;
use num::Signed;
use vstd::prelude::*;

verus! {

/// A scalar: a number type with a strict total order and the operations of
/// a field, as far as the type can carry them out.
///
/// Each operation has a name of its own as a function of its arguments, and
/// a condition on which it can be carried out. A type with exact arithmetic
/// on a range of numbers, such as a machine integer, says so by
/// implementing [`ExactNum`] as well.
pub trait SpadeNum: Copy {
    /// What `zero` returns.
    spec fn nought() -> Self;

    /// What `one` returns.
    spec fn unit() -> Self;

    /// What `add` returns.
    spec fn plus(self, rhs: Self) -> Self;

    /// What `sub` returns.
    spec fn minus(self, rhs: Self) -> Self;

    /// What `mul` returns.
    spec fn times(self, rhs: Self) -> Self;

    /// What `div` returns.
    spec fn over(self, rhs: Self) -> Self;

    /// What `abs` returns.
    spec fn magnitude(self) -> Self;

    /// The strict order: what `lt` returns.
    spec fn below(self, rhs: Self) -> bool;

    /// The type can hold the sum.
    spec fn can_add(self, rhs: Self) -> bool;

    /// The type can hold the difference.
    spec fn can_sub(self, rhs: Self) -> bool;

    /// The type can hold the product.
    spec fn can_mul(self, rhs: Self) -> bool;

    /// The quotient exists and the type can hold it.
    spec fn can_div(self, rhs: Self) -> bool;

    /// The type can hold the absolute value.
    spec fn can_abs(self) -> bool;

    /// The additive identity.
    fn zero() -> (r: Self)
        ensures
            r == Self::nought(),
    ;

    /// The multiplicative identity.
    fn one() -> (r: Self)
        ensures
            r == Self::unit(),
    ;

    /// The sum of two scalars.
    fn add(self, rhs: Self) -> (r: Self)
        requires
            self.can_add(rhs),
        ensures
            r == self.plus(rhs),
    ;

    /// The difference of two scalars.
    fn sub(self, rhs: Self) -> (r: Self)
        requires
            self.can_sub(rhs),
        ensures
            r == self.minus(rhs),
    ;

    /// The product of two scalars.
    fn mul(self, rhs: Self) -> (r: Self)
        requires
            self.can_mul(rhs),
        ensures
            r == self.times(rhs),
    ;

    /// The quotient of two scalars.
    fn div(self, rhs: Self) -> (r: Self)
        requires
            self.can_div(rhs),
        ensures
            r == self.over(rhs),
    ;

    /// The absolute value of a scalar.
    fn abs(self) -> (r: Self)
        requires
            self.can_abs(),
        ensures
            r == self.magnitude(),
    ;

    /// Whether `self` is less than `rhs`.
    fn lt(self, rhs: Self) -> (r: bool)
        ensures
            r == self.below(rhs),
    ;

    /// Whether `self` is less than or equal to `rhs`.
    fn le(self, rhs: Self) -> (r: bool)
        ensures
            r == !rhs.below(self),
    ;

    /// The order is strict, and what is neither below nor above is as good
    /// as equal: no scalar is below itself, `below` is transitive, and so is
    /// its negation.
    proof fn lemma_order(a: Self, b: Self, c: Self)
        ensures
            !a.below(a),
            a.below(b) && b.below(c) ==> a.below(c),
            !a.below(b) && !b.below(c) ==> !a.below(c),
    ;
}

/// `a` is not greater than `b`.
pub open spec fn at_most<S: SpadeNum>(a: S, b: S) -> bool {
    !b.below(a)
}

/// The smaller of two scalars; the second where neither is smaller.
pub open spec fn smaller<S: SpadeNum>(a: S, b: S) -> S {
    if a.below(b) {
        a
    } else {
        b
    }
}

/// The larger of two scalars; the second where neither is larger.
pub open spec fn larger<S: SpadeNum>(a: S, b: S) -> S {
    if b.below(a) {
        a
    } else {
        b
    }
}

/// The smaller of two scalars; the second where neither is smaller.
pub fn min_inline<S: SpadeNum>(a: S, b: S) -> (r: S)
    ensures
        r == smaller(a, b),
{
    if a.lt(b) {
        a
    } else {
        b
    }
}

/// The larger of two scalars; the second where neither is larger.
pub fn max_inline<S: SpadeNum>(a: S, b: S) -> (r: S)
    ensures
        r == larger(a, b),
{
    if b.lt(a) {
        a
    } else {
        b
    }
}

/// A scalar type whose values are whole numbers of a range, and whose
/// arithmetic is exact wherever the result lies in that range.
pub trait ExactNum: SpadeNum {
    /// The number that a scalar stands for.
    spec fn value(self) -> int;

    /// The type can hold the number `v`.
    spec fn fits(v: int) -> bool;

    /// The scalars are the numbers that fit, in their order, and each
    /// operation that can be carried out gives the exact result.
    proof fn lemma_exact(a: Self, b: Self)
        ensures
            Self::fits(a.value()),
            a.value() == b.value() ==> a == b,
            Self::nought().value() == 0,
            Self::unit().value() == 1,
            a.below(b) <==> a.value() < b.value(),
            a.can_add(b) <==> Self::fits(a.value() + b.value()),
            a.can_add(b) ==> a.plus(b).value() == a.value() + b.value(),
            a.can_sub(b) <==> Self::fits(a.value() - b.value()),
            a.can_sub(b) ==> a.minus(b).value() == a.value() - b.value(),
            a.can_mul(b) <==> Self::fits(a.value() * b.value()),
            a.can_mul(b) ==> a.times(b).value() == a.value() * b.value(),
            a.can_abs() <==> Self::fits(vstd::math::abs(a.value()) as int),
            a.can_abs() ==> a.magnitude().value() == vstd::math::abs(a.value()),
    ;

    /// The numbers that fit form a range.
    proof fn lemma_fits_between(lo: int, mid: int, hi: int)
        requires
            Self::fits(lo),
            Self::fits(hi),
            lo <= mid <= hi,
        ensures
            Self::fits(mid),
    ;
}

/// Calls `num::zero` at `i64`. Taken on trust, not proved: it returns the
/// number 0.
#[verifier::external_body]
fn zero_i64() -> (r: i64)
    ensures
        r == 0,
{
    num::zero()
}

/// Calls `num::one` at `i64`. Taken on trust, not proved: it returns the
/// number 1.
#[verifier::external_body]
fn one_i64() -> (r: i64)
    ensures
        r == 1,
{
    num::one()
}

/// Calls `num::Signed::abs` at `i64`. Taken on trust, not proved: it returns
/// the number itself where that is not negative, else its negation. The
/// least `i64` has no negation and is left out.
#[verifier::external_body]
fn abs_i64(x: i64) -> (r: i64)
    requires
        x > i64::MIN,
    ensures
        r == vstd::math::abs(x as int),
{
    Signed::abs(&x)
}

impl SpadeNum for i64 {
    open spec fn nought() -> Self {
        0
    }

    open spec fn unit() -> Self {
        1
    }

    open spec fn plus(self, rhs: Self) -> Self {
        (self + rhs) as i64
    }

    open spec fn minus(self, rhs: Self) -> Self {
        (self - rhs) as i64
    }

    open spec fn times(self, rhs: Self) -> Self {
        (self * rhs) as i64
    }

    open spec fn over(self, rhs: Self) -> Self {
        if self >= 0 {
            (self / rhs) as i64
        } else {
            (-((-self) / (rhs as int))) as i64
        }
    }

    open spec fn magnitude(self) -> Self {
        vstd::math::abs(self as int) as i64
    }

    open spec fn below(self, rhs: Self) -> bool {
        self < rhs
    }

    open spec fn can_add(self, rhs: Self) -> bool {
        i64::MIN <= self + rhs <= i64::MAX
    }

    open spec fn can_sub(self, rhs: Self) -> bool {
        i64::MIN <= self - rhs <= i64::MAX
    }

    open spec fn can_mul(self, rhs: Self) -> bool {
        i64::MIN <= self * rhs <= i64::MAX
    }

    open spec fn can_div(self, rhs: Self) -> bool {
        rhs != 0 && !(self == i64::MIN && rhs == -1)
    }

    open spec fn can_abs(self) -> bool {
        self > i64::MIN
    }

    fn zero() -> (r: Self) {
        zero_i64()
    }

    fn one() -> (r: Self) {
        one_i64()
    }

    fn add(self, rhs: Self) -> (r: Self) {
        self + rhs
    }

    fn sub(self, rhs: Self) -> (r: Self) {
        self - rhs
    }

    fn mul(self, rhs: Self) -> (r: Self) {
        self * rhs
    }

    fn div(self, rhs: Self) -> (r: Self) {
        self / rhs
    }

    fn abs(self) -> (r: Self) {
        abs_i64(self)
    }

    fn lt(self, rhs: Self) -> (r: bool) {
        self < rhs
    }

    fn le(self, rhs: Self) -> (r: bool) {
        self <= rhs
    }

    proof fn lemma_order(a: Self, b: Self, c: Self) {
    }
}

impl ExactNum for i64 {
    open spec fn value(self) -> int {
        self as int
    }

    open spec fn fits(v: int) -> bool {
        i64::MIN <= v <= i64::MAX
    }

    proof fn lemma_exact(a: Self, b: Self) {
    }

    proof fn lemma_fits_between(lo: int, mid: int, hi: int) {
    }
}

/// An object that a spatial index can hold: it has a minimal bounding
/// rectangle, a squared distance to every point, and it contains points.
pub trait SpatialObject {
    /// The object's point type.
    type Point: PointN;

    /// What `mbr` returns.
    spec fn spec_mbr(&self) -> BoundingRect<Self::Point>;

    /// What `distance2` returns.
    spec fn spec_distance2(&self, point: &Self::Point) -> <Self::Point as PointN>::Scalar;

    /// What `contains` returns.
    spec fn spec_contains(&self, point: &Self::Point) -> bool;

    /// The squared distance to `point` can be computed.
    spec fn can_measure(&self, point: &Self::Point) -> bool;

    /// Returns the object's minimal bounding rectangle.
    fn mbr(&self) -> (r: BoundingRect<Self::Point>)
        ensures
            r == self.spec_mbr(),
    ;

    /// Returns the squared euclidean distance from the object's contour;
    /// no more than zero where the point is contained within the object.
    fn distance2(&self, point: &Self::Point) -> (r: <Self::Point as PointN>::Scalar)
        requires
            self.can_measure(point),
        ensures
            r == self.spec_distance2(point),
    ;

    /// Returns true if a given point is contained in this object.
    fn contains(&self, point: &Self::Point) -> (r: bool)
        ensures
            r == self.spec_contains(point),
    ;
}

} // verus!
