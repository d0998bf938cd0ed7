//! Points of a fixed number of dimensions, and arithmetic on them
//! coordinate by coordinate.

use crate::traits::{at_most, larger, max_inline, min_inline, smaller, SpadeNum};
use vstd::prelude::*;

verus! {

/// A point of a fixed number of dimensions.
pub trait PointN: Copy {
    /// The type of the coordinates.
    type Scalar: SpadeNum;

    /// The number of dimensions.
    spec fn dims() -> nat;

    /// The coordinates.
    spec fn coords(self) -> Seq<Self::Scalar>;

    /// The number of dimensions.
    fn dimensions() -> (r: usize)
        ensures
            r == Self::dims(),
    ;

    /// The point whose coordinates all are `value`.
    fn from_value(value: Self::Scalar) -> (r: Self)
        ensures
            r.coords() == Seq::new(Self::dims(), |i: int| value),
    ;

    /// The coordinate at `index`.
    fn nth(&self, index: usize) -> (r: &Self::Scalar)
        requires
            index < Self::dims(),
        ensures
            *r == self.coords()[index as int],
    ;

    /// The coordinate at `index`, for writing.
    fn nth_mut(&mut self, index: usize) -> (r: &mut Self::Scalar)
        requires
            index < Self::dims(),
        ensures
            *r == old(self).coords()[index as int],
            final(self).coords() == old(self).coords().update(index as int, *final(r)),
    ;

    /// A point has as many coordinates as its type has dimensions.
    proof fn lemma_coords(self)
        ensures
            self.coords().len() == Self::dims(),
    ;
}

impl<S: SpadeNum> PointN for [S; 2] {
    type Scalar = S;

    open spec fn dims() -> nat {
        2
    }

    open spec fn coords(self) -> Seq<S> {
        self@
    }

    fn dimensions() -> (r: usize) {
        2
    }

    fn from_value(value: S) -> (r: Self) {
        let r = [value, value];
        proof {
            assert(r@ =~= Seq::new(2, |i: int| value));
        }
        r
    }

    fn nth(&self, index: usize) -> (r: &S) {
        &self[index]
    }

    fn nth_mut(&mut self, index: usize) -> (r: &mut S) {
        &mut self[index]
    }

    proof fn lemma_coords(self) {
    }
}


impl<S: SpadeNum> PointN for [S; 3] {
    type Scalar = S;

    open spec fn dims() -> nat {
        3
    }

    open spec fn coords(self) -> Seq<S> {
        self@
    }

    fn dimensions() -> (r: usize) {
        3
    }

    fn from_value(value: S) -> (r: Self) {
        let r = [value, value, value];
        proof {
            assert(r@ =~= Seq::new(3, |i: int| value));
        }
        r
    }

    fn nth(&self, index: usize) -> (r: &S) {
        &self[index]
    }

    fn nth_mut(&mut self, index: usize) -> (r: &mut S) {
        &mut self[index]
    }

    proof fn lemma_coords(self) {
    }
}

/// The smaller coordinate of `a` and `b` on each axis.
pub open spec fn seq_smaller<S: SpadeNum>(a: Seq<S>, b: Seq<S>) -> Seq<S> {
    Seq::new(a.len(), |i: int| smaller(a[i], b[i]))
}

/// The larger coordinate of `a` and `b` on each axis.
pub open spec fn seq_larger<S: SpadeNum>(a: Seq<S>, b: Seq<S>) -> Seq<S> {
    Seq::new(a.len(), |i: int| larger(a[i], b[i]))
}

/// On each axis the coordinate of `a` is at most that of `b`.
pub open spec fn seq_at_most<S: SpadeNum>(a: Seq<S>, b: Seq<S>) -> bool {
    forall|i: int| 0 <= i < a.len() ==> #[trigger] at_most(a[i], b[i])
}

/// The sum on each axis.
pub open spec fn seq_plus<S: SpadeNum>(a: Seq<S>, b: Seq<S>) -> Seq<S> {
    Seq::new(a.len(), |i: int| a[i].plus(b[i]))
}

/// The sum can be computed on each axis.
pub open spec fn can_seq_plus<S: SpadeNum>(a: Seq<S>, b: Seq<S>) -> bool {
    forall|i: int| 0 <= i < a.len() ==> #[trigger] a[i].can_add(b[i])
}

/// The difference on each axis.
pub open spec fn seq_minus<S: SpadeNum>(a: Seq<S>, b: Seq<S>) -> Seq<S> {
    Seq::new(a.len(), |i: int| a[i].minus(b[i]))
}

/// The difference can be computed on each axis.
pub open spec fn can_seq_minus<S: SpadeNum>(a: Seq<S>, b: Seq<S>) -> bool {
    forall|i: int| 0 <= i < a.len() ==> #[trigger] a[i].can_sub(b[i])
}

/// The quotient by `s` on each axis.
pub open spec fn seq_over<S: SpadeNum>(a: Seq<S>, s: S) -> Seq<S> {
    Seq::new(a.len(), |i: int| a[i].over(s))
}

/// The quotient by `s` can be computed on each axis.
pub open spec fn can_seq_over<S: SpadeNum>(a: Seq<S>, s: S) -> bool {
    forall|i: int| 0 <= i < a.len() ==> #[trigger] a[i].can_div(s)
}

/// The absolute value on each axis.
pub open spec fn seq_magnitude<S: SpadeNum>(a: Seq<S>) -> Seq<S> {
    Seq::new(a.len(), |i: int| a[i].magnitude())
}

/// The absolute value can be computed on each axis.
pub open spec fn can_seq_magnitude<S: SpadeNum>(a: Seq<S>) -> bool {
    forall|i: int| 0 <= i < a.len() ==> #[trigger] a[i].can_abs()
}

/// The sum of the squares of the first `k` coordinates, added up from
/// zero in the order of the axes.
pub open spec fn sum_sq<S: SpadeNum>(a: Seq<S>, k: nat) -> S
    decreases k,
{
    if k == 0 {
        S::nought()
    } else {
        sum_sq(a, (k - 1) as nat).plus(a[k - 1].times(a[k - 1]))
    }
}

/// Every step of `sum_sq(a, k)` can be computed.
pub open spec fn can_sum_sq<S: SpadeNum>(a: Seq<S>, k: nat) -> bool
    decreases k,
{
    k == 0 || (can_sum_sq(a, (k - 1) as nat) && a[k - 1].can_mul(a[k - 1]) && sum_sq(
        a,
        (k - 1) as nat,
    ).can_add(a[k - 1].times(a[k - 1])))
}

/// The operations of [`PointN`] that work coordinate by coordinate.
pub trait PointNExtensions: PointN {
    /// The origin.
    fn new() -> (r: Self)
        ensures
            r.coords() == Seq::new(Self::dims(), |i: int| Self::Scalar::nought()),
    {
        Self::from_value(Self::Scalar::zero())
    }

    /// The point with the smaller coordinate of the two on each axis.
    fn min_point(&self, other: &Self) -> (r: Self)
        ensures
            r.coords() == seq_smaller(self.coords(), other.coords()),
    {
        proof {
            self.lemma_coords();
            other.lemma_coords();
        }
        let mut result = *self;
        let mut i: usize = 0;
        while i < Self::dimensions()
            invariant
                i <= Self::dims(),
                self.coords().len() == Self::dims(),
                other.coords().len() == Self::dims(),
                result.coords().len() == Self::dims(),
                forall|j: int|
                    0 <= j < Self::dims() ==> #[trigger] result.coords()[j] == (if j < i {
                        smaller(self.coords()[j], other.coords()[j])
                    } else {
                        self.coords()[j]
                    }),
            decreases Self::dims() - i,
        {
            let s = min_inline(*self.nth(i), *other.nth(i));
            *result.nth_mut(i) = s;
            i += 1;
        }
        proof {
            assert(result.coords() =~= seq_smaller(self.coords(), other.coords()));
        }
        result
    }

    /// The point with the larger coordinate of the two on each axis.
    fn max_point(&self, other: &Self) -> (r: Self)
        ensures
            r.coords() == seq_larger(self.coords(), other.coords()),
    {
        proof {
            self.lemma_coords();
            other.lemma_coords();
        }
        let mut result = *self;
        let mut i: usize = 0;
        while i < Self::dimensions()
            invariant
                i <= Self::dims(),
                self.coords().len() == Self::dims(),
                other.coords().len() == Self::dims(),
                result.coords().len() == Self::dims(),
                forall|j: int|
                    0 <= j < Self::dims() ==> #[trigger] result.coords()[j] == (if j < i {
                        larger(self.coords()[j], other.coords()[j])
                    } else {
                        self.coords()[j]
                    }),
            decreases Self::dims() - i,
        {
            let s = max_inline(*self.nth(i), *other.nth(i));
            *result.nth_mut(i) = s;
            i += 1;
        }
        proof {
            assert(result.coords() =~= seq_larger(self.coords(), other.coords()));
        }
        result
    }

    /// Whether on each axis the coordinate of `self` is at most that of
    /// `other`.
    fn all_at_most(&self, other: &Self) -> (r: bool)
        ensures
            r == seq_at_most(self.coords(), other.coords()),
    {
        proof {
            self.lemma_coords();
            other.lemma_coords();
        }
        let mut i: usize = 0;
        while i < Self::dimensions()
            invariant
                i <= Self::dims(),
                self.coords().len() == Self::dims(),
                other.coords().len() == Self::dims(),
                forall|j: int|
                    0 <= j < i ==> #[trigger] at_most(self.coords()[j], other.coords()[j]),
            decreases Self::dims() - i,
        {
            if !self.nth(i).le(*other.nth(i)) {
                proof {
                    assert(!at_most(self.coords()[i as int], other.coords()[i as int]));
                }
                return false;
            }
            i += 1;
        }
        true
    }

    /// The sum of two points.
    fn add(&self, rhs: &Self) -> (r: Self)
        requires
            can_seq_plus(self.coords(), rhs.coords()),
        ensures
            r.coords() == seq_plus(self.coords(), rhs.coords()),
    {
        proof {
            self.lemma_coords();
            rhs.lemma_coords();
        }
        let mut result = *self;
        let mut i: usize = 0;
        while i < Self::dimensions()
            invariant
                i <= Self::dims(),
                self.coords().len() == Self::dims(),
                rhs.coords().len() == Self::dims(),
                result.coords().len() == Self::dims(),
                can_seq_plus(self.coords(), rhs.coords()),
                forall|j: int|
                    0 <= j < Self::dims() ==> #[trigger] result.coords()[j] == (if j < i {
                        self.coords()[j].plus(rhs.coords()[j])
                    } else {
                        self.coords()[j]
                    }),
            decreases Self::dims() - i,
        {
            proof {
                assert(self.coords()[i as int].can_add(rhs.coords()[i as int]));
            }
            let s = self.nth(i).add(*rhs.nth(i));
            *result.nth_mut(i) = s;
            i += 1;
        }
        proof {
            assert(result.coords() =~= seq_plus(self.coords(), rhs.coords()));
        }
        result
    }

    /// The difference of two points.
    fn sub(&self, rhs: &Self) -> (r: Self)
        requires
            can_seq_minus(self.coords(), rhs.coords()),
        ensures
            r.coords() == seq_minus(self.coords(), rhs.coords()),
    {
        proof {
            self.lemma_coords();
            rhs.lemma_coords();
        }
        let mut result = *self;
        let mut i: usize = 0;
        while i < Self::dimensions()
            invariant
                i <= Self::dims(),
                self.coords().len() == Self::dims(),
                rhs.coords().len() == Self::dims(),
                result.coords().len() == Self::dims(),
                can_seq_minus(self.coords(), rhs.coords()),
                forall|j: int|
                    0 <= j < Self::dims() ==> #[trigger] result.coords()[j] == (if j < i {
                        self.coords()[j].minus(rhs.coords()[j])
                    } else {
                        self.coords()[j]
                    }),
            decreases Self::dims() - i,
        {
            proof {
                assert(self.coords()[i as int].can_sub(rhs.coords()[i as int]));
            }
            let s = self.nth(i).sub(*rhs.nth(i));
            *result.nth_mut(i) = s;
            i += 1;
        }
        proof {
            assert(result.coords() =~= seq_minus(self.coords(), rhs.coords()));
        }
        result
    }

    /// The point divided by a scalar.
    fn div(&self, scalar: Self::Scalar) -> (r: Self)
        requires
            can_seq_over(self.coords(), scalar),
        ensures
            r.coords() == seq_over(self.coords(), scalar),
    {
        proof {
            self.lemma_coords();
        }
        let mut result = *self;
        let mut i: usize = 0;
        while i < Self::dimensions()
            invariant
                i <= Self::dims(),
                self.coords().len() == Self::dims(),
                result.coords().len() == Self::dims(),
                can_seq_over(self.coords(), scalar),
                forall|j: int|
                    0 <= j < Self::dims() ==> #[trigger] result.coords()[j] == (if j < i {
                        self.coords()[j].over(scalar)
                    } else {
                        self.coords()[j]
                    }),
            decreases Self::dims() - i,
        {
            proof {
                assert(self.coords()[i as int].can_div(scalar));
            }
            let s = self.nth(i).div(scalar);
            *result.nth_mut(i) = s;
            i += 1;
        }
        proof {
            assert(result.coords() =~= seq_over(self.coords(), scalar));
        }
        result
    }

    /// The point of the absolute values of the coordinates.
    fn abs(&self) -> (r: Self)
        requires
            can_seq_magnitude(self.coords()),
        ensures
            r.coords() == seq_magnitude(self.coords()),
    {
        proof {
            self.lemma_coords();
        }
        let mut result = *self;
        let mut i: usize = 0;
        while i < Self::dimensions()
            invariant
                i <= Self::dims(),
                self.coords().len() == Self::dims(),
                result.coords().len() == Self::dims(),
                can_seq_magnitude(self.coords()),
                forall|j: int|
                    0 <= j < Self::dims() ==> #[trigger] result.coords()[j] == (if j < i {
                        self.coords()[j].magnitude()
                    } else {
                        self.coords()[j]
                    }),
            decreases Self::dims() - i,
        {
            proof {
                assert(self.coords()[i as int].can_abs());
            }
            let s = self.nth(i).abs();
            *result.nth_mut(i) = s;
            i += 1;
        }
        proof {
            assert(result.coords() =~= seq_magnitude(self.coords()));
        }
        result
    }

    /// The squared length of the point, taken as a vector.
    fn length2(&self) -> (r: Self::Scalar)
        requires
            can_sum_sq(self.coords(), Self::dims()),
        ensures
            r == sum_sq(self.coords(), Self::dims()),
    {
        proof {
            self.lemma_coords();
        }
        let mut acc = Self::Scalar::zero();
        let mut i: usize = 0;
        while i < Self::dimensions()
            invariant
                i <= Self::dims(),
                self.coords().len() == Self::dims(),
                can_sum_sq(self.coords(), Self::dims()),
                acc == sum_sq(self.coords(), i as nat),
            decreases Self::dims() - i,
        {
            proof {
                lemma_can_sum_sq_prefix(self.coords(), Self::dims(), (i + 1) as nat);
            }
            let v = *self.nth(i);
            acc = acc.add(v.mul(v));
            i += 1;
        }
        acc
    }
}

impl<T: PointN> PointNExtensions for T {

}

/// Where the sum of squares of `k` coordinates can be computed, that of the
/// first `j` of them can.
pub proof fn lemma_can_sum_sq_prefix<S: SpadeNum>(a: Seq<S>, k: nat, j: nat)
    requires
        can_sum_sq(a, k),
        j <= k,
    ensures
        can_sum_sq(a, j),
    decreases k,
{
    if j < k {
        lemma_can_sum_sq_prefix(a, (k - 1) as nat, j);
    }
}

} // verus!
