//! Axis aligned minimal bounding rectangles.

use crate::point_traits::{
    can_seq_magnitude, can_seq_minus, can_seq_over, can_seq_plus, can_sum_sq, seq_at_most,
    seq_larger, seq_magnitude, seq_minus, seq_over, seq_plus, seq_smaller, sum_sq, PointN,
    PointNExtensions,
};
use crate::traits::{at_most, larger, max_inline, smaller, SpadeNum, SpatialObject};
use vstd::prelude::*;

pub mod laws;

verus! {

/// An axis aligned minimal bounding rectangle.
///
/// An axis aligned minimal bounding rectangle is the smallest rectangle that completely
/// surrounds an object and is aligned along all axes. The vector type `V`'s dimension
/// determines if this is a rectangle, a box or a higher dimensional volume.
#[derive(Clone, Copy, Debug, PartialEq, Eq, PartialOrd, Ord, Hash)]
pub struct BoundingRect<V: PointN> {
    lower: V,
    upper: V,
}

/// The lower corner of the smallest rectangle around the first `k` of the
/// points, found by taking in one point after the other.
pub open spec fn lowest<V: PointN>(points: Seq<V>, k: nat) -> Seq<V::Scalar>
    decreases k,
{
    if k <= 1 {
        points[0].coords()
    } else {
        seq_smaller(lowest(points, (k - 1) as nat), points[k - 1].coords())
    }
}

/// The upper corner of the smallest rectangle around the first `k` of the
/// points, found by taking in one point after the other.
pub open spec fn highest<V: PointN>(points: Seq<V>, k: nat) -> Seq<V::Scalar>
    decreases k,
{
    if k <= 1 {
        points[0].coords()
    } else {
        seq_larger(highest(points, (k - 1) as nat), points[k - 1].coords())
    }
}

/// The product of the first `k` extents, taken up from one in the order of
/// the axes, where a product below zero counts as zero.
pub open spec fn volume<S: SpadeNum>(d: Seq<S>, k: nat) -> S
    decreases k,
{
    if k == 0 {
        S::unit()
    } else {
        larger(volume(d, (k - 1) as nat).times(d[k - 1]), S::nought())
    }
}

/// Every step of `volume(d, k)` can be computed.
pub open spec fn can_volume<S: SpadeNum>(d: Seq<S>, k: nat) -> bool
    decreases k,
{
    k == 0 || (can_volume(d, (k - 1) as nat) && volume(d, (k - 1) as nat).can_mul(d[k - 1]))
}

/// The sum of the first `k` extents, added up from zero in the order of the
/// axes.
pub open spec fn sum_of<S: SpadeNum>(d: Seq<S>, k: nat) -> S
    decreases k,
{
    if k == 0 {
        S::nought()
    } else {
        sum_of(d, (k - 1) as nat).plus(d[k - 1])
    }
}

/// Every step of `sum_of(d, k)` can be computed.
pub open spec fn can_sum_of<S: SpadeNum>(d: Seq<S>, k: nat) -> bool
    decreases k,
{
    k == 0 || (can_sum_of(d, (k - 1) as nat) && sum_of(d, (k - 1) as nat).can_add(d[k - 1]))
}

/// On each axis, the one of the two offsets `l` and `u` that is smaller in
/// absolute value; `u` where neither is.
pub open spec fn nearer<S: SpadeNum>(l: Seq<S>, u: Seq<S>) -> Seq<S> {
    Seq::new(
        l.len(),
        |i: int|
            if l[i].magnitude().below(u[i].magnitude()) {
                l[i]
            } else {
                u[i]
            },
    )
}

/// On each axis, the one of the two offsets `l` and `u` that `nearer` does
/// not take.
pub open spec fn farther<S: SpadeNum>(l: Seq<S>, u: Seq<S>) -> Seq<S> {
    Seq::new(
        l.len(),
        |i: int|
            if l[i].magnitude().below(u[i].magnitude()) {
                u[i]
            } else {
                l[i]
            },
    )
}

/// The squared length of the offset that is the nearer one on every axis but
/// axis `i`, where it is the farther one.
pub open spec fn far_on_axis<S: SpadeNum>(l: Seq<S>, u: Seq<S>, i: int) -> S {
    sum_sq(nearer(l, u).update(i, farther(l, u)[i]), l.len())
}

/// `far_on_axis(l, u, i)` can be computed.
pub open spec fn can_far_on_axis<S: SpadeNum>(l: Seq<S>, u: Seq<S>, i: int) -> bool {
    can_sum_sq(nearer(l, u).update(i, farther(l, u)[i]), l.len())
}

/// The least of `far_on_axis` over the first `k` axes; of equal ones the
/// first.
pub open spec fn least_far<S: SpadeNum>(l: Seq<S>, u: Seq<S>, k: nat) -> S
    decreases k,
{
    if k == 0 {
        S::nought()
    } else if k == 1 {
        far_on_axis(l, u, 0)
    } else {
        let rest = least_far(l, u, (k - 1) as nat);
        if far_on_axis(l, u, k - 1).below(rest) {
            far_on_axis(l, u, k - 1)
        } else {
            rest
        }
    }
}

/// What the order of scalars says of the smaller and the larger of two.
pub proof fn lemma_smaller_larger<S: SpadeNum>(a: S, b: S)
    ensures
        at_most(a, a),
        at_most(smaller(a, b), a),
        at_most(smaller(a, b), b),
        at_most(a, larger(a, b)),
        at_most(b, larger(a, b)),
        at_most(smaller(a, b), larger(a, b)),
{
    S::lemma_order(a, b, a);
    S::lemma_order(b, a, b);
    S::lemma_order(a, a, b);
    S::lemma_order(b, b, a);
}

/// "At most" is transitive.
pub proof fn lemma_at_most_transitive<S: SpadeNum>(a: S, b: S, c: S)
    requires
        at_most(a, b),
        at_most(b, c),
    ensures
        at_most(a, c),
{
    S::lemma_order(c, b, a);
}

impl<V> BoundingRect<V> where V: PointN {
    /// The lower corner.
    pub closed spec fn spec_lower(self) -> V {
        self.lower
    }

    /// The upper corner.
    pub closed spec fn spec_upper(self) -> V {
        self.upper
    }

    /// The coordinates of the lower corner.
    pub open spec fn lo(self) -> Seq<V::Scalar> {
        self.spec_lower().coords()
    }

    /// The coordinates of the upper corner.
    pub open spec fn hi(self) -> Seq<V::Scalar> {
        self.spec_upper().coords()
    }

    /// On no axis the lower corner lies above the upper one.
    ///
    /// This holds of every rectangle that is made from points and enlarged;
    /// the intersection of two rectangles that do not meet lacks it.
    pub open spec fn is_proper(self) -> bool {
        seq_at_most(self.lo(), self.hi())
    }

    /// The point with coordinates `p` lies in the rectangle, the border
    /// included.
    pub open spec fn holds(self, p: Seq<V::Scalar>) -> bool {
        seq_at_most(self.lo(), p) && seq_at_most(p, self.hi())
    }

    /// The point of the rectangle that is nearest to the point with
    /// coordinates `p`: on each axis `p` itself, or the bound that it lies
    /// beyond.
    pub open spec fn clamp(self, p: Seq<V::Scalar>) -> Seq<V::Scalar> {
        seq_smaller(self.hi(), seq_larger(self.lo(), p))
    }

    /// Creates a bounding rectangle that contains exactly one point.
    ///
    /// This will create a bounding rectangle with `lower == upper == point`.
    pub fn from_point(point: V) -> (r: BoundingRect<V>)
        ensures
            r.spec_lower() == point,
            r.spec_upper() == point,
            r.is_proper(),
    {
        proof {
            let p = point.coords();
            assert forall|i: int| 0 <= i < p.len() implies #[trigger] at_most(p[i], p[i]) by {
                lemma_smaller_larger(p[i], p[i]);
            }
        }
        BoundingRect { lower: point, upper: point }
    }

    /// Create a bounding rectangle from a set of points, of which there
    /// must be at least one.
    pub fn from_points(points: &[V]) -> (r: Self)
        requires
            points@.len() >= 1,
        ensures
            r.lo() == lowest(points@, points@.len()),
            r.hi() == highest(points@, points@.len()),
            r.is_proper(),
    {
        let mut result = Self::from_point(points[0]);
        let mut i: usize = 1;
        while i < points.len()
            invariant
                1 <= i <= points@.len(),
                result.lo() == lowest(points@, i as nat),
                result.hi() == highest(points@, i as nat),
                result.is_proper(),
            decreases points@.len() - i,
        {
            result.add_point(points[i]);
            i += 1;
        }
        result
    }

    /// Creates a bounding rectangle that contains two points.
    pub fn from_corners(corner1: &V, corner2: &V) -> (r: BoundingRect<V>)
        ensures
            r.lo() == seq_smaller(corner1.coords(), corner2.coords()),
            r.hi() == seq_larger(corner1.coords(), corner2.coords()),
            r.is_proper(),
    {
        let r = BoundingRect {
            lower: corner1.min_point(&corner2),
            upper: corner1.max_point(&corner2),
        };
        proof {
            assert forall|i: int| 0 <= i < r.lo().len() implies #[trigger] at_most(
                r.lo()[i],
                r.hi()[i],
            ) by {
                lemma_smaller_larger(corner1.coords()[i], corner2.coords()[i]);
            }
        }
        r
    }

    /// Returns the lower corner of the bounding rectangle.
    ///
    /// The lower corner has the smaller coordinates.
    pub fn lower(&self) -> (r: V)
        ensures
            r == self.spec_lower(),
    {
        self.lower
    }

    /// Returns the upper corner of the bounding rectangle.
    ///
    /// The upper corner has the larger coordinates.
    pub fn upper(&self) -> (r: V)
        ensures
            r == self.spec_upper(),
    {
        self.upper
    }

    /// Checks if a point is contained within the bounding rectangle.
    ///
    /// A point lying exactly on the bounding rectangle's border is also contained.
    #[inline]
    pub fn contains_point(&self, point: &V) -> (r: bool)
        ensures
            r == self.holds(point.coords()),
    {
        proof {
            self.lower.lemma_coords();
            self.upper.lemma_coords();
            point.lemma_coords();
        }
        self.lower.all_at_most(&point) && point.all_at_most(&self.upper)
    }

    /// Checks if another bounding rectangle is completely contained within this rectangle.
    ///
    /// A rectangle is contained if and only if all of its corners are contained
    /// (see `contains_point`).
    #[inline]
    pub fn contains_rect(&self, rect: &BoundingRect<V>) -> (r: bool)
        ensures
            r == (seq_at_most(self.lo(), rect.lo()) && seq_at_most(rect.hi(), self.hi())),
    {
        self.lower.all_at_most(&rect.lower()) && rect.upper().all_at_most(&self.upper)
    }

    /// Enlarges this bounding rectangle to contain a point.
    ///
    /// If the point is already contained, nothing will be changed.
    /// Otherwise, this will enlarge `self` to be just large enough
    /// to contain the new point.
    #[inline]
    pub fn add_point(&mut self, point: V)
        ensures
            final(self).lo() == seq_smaller(old(self).lo(), point.coords()),
            final(self).hi() == seq_larger(old(self).hi(), point.coords()),
            old(self).is_proper() ==> final(self).is_proper(),
            final(self).holds(point.coords()),
    {
        proof {
            self.lower.lemma_coords();
            self.upper.lemma_coords();
            point.lemma_coords();
        }
        self.lower = self.lower.min_point(&point);
        self.upper = self.upper.max_point(&point);
        proof {
            let lo0 = old(self).lo();
            let hi0 = old(self).hi();
            let p = point.coords();
            let lo1 = self.lo();
            let hi1 = self.hi();
            assert forall|i: int| 0 <= i < p.len() implies #[trigger] at_most(lo1[i], p[i]) by {
                lemma_smaller_larger(lo0[i], p[i]);
            }
            assert forall|i: int| 0 <= i < p.len() implies #[trigger] at_most(p[i], hi1[i]) by {
                lemma_smaller_larger(hi0[i], p[i]);
            }
            if old(self).is_proper() {
                assert forall|i: int| 0 <= i < p.len() implies #[trigger] at_most(
                    lo1[i],
                    hi1[i],
                ) by {
                    lemma_smaller_larger(lo0[i], p[i]);
                    lemma_smaller_larger(hi0[i], p[i]);
                    assert(at_most(lo0[i], hi0[i]));
                    lemma_at_most_transitive(lo1[i], lo0[i], hi0[i]);
                    lemma_at_most_transitive(lo1[i], hi0[i], hi1[i]);
                }
            }
        }
    }

    /// Enlarges this bounding rectangle to contain a rectangle.
    ///
    /// If the rectangle is already contained, nothing will be changed.
    /// Otherwise, this will enlarge `self` to be just large enough
    /// to contain the new rectangle.
    #[inline]
    pub fn add_rect(&mut self, rect: &BoundingRect<V>)
        ensures
            final(self).lo() == seq_smaller(old(self).lo(), rect.lo()),
            final(self).hi() == seq_larger(old(self).hi(), rect.hi()),
            old(self).is_proper() ==> final(self).is_proper(),
    {
        proof {
            self.lower.lemma_coords();
            self.upper.lemma_coords();
            rect.lower.lemma_coords();
            rect.upper.lemma_coords();
        }
        self.lower = self.lower.min_point(&rect.lower);
        self.upper = self.upper.max_point(&rect.upper);
        proof {
            let lo0 = old(self).lo();
            let hi0 = old(self).hi();
            let lo1 = self.lo();
            let hi1 = self.hi();
            if old(self).is_proper() {
                assert forall|i: int| 0 <= i < lo1.len() implies #[trigger] at_most(
                    lo1[i],
                    hi1[i],
                ) by {
                    lemma_smaller_larger(lo0[i], rect.lo()[i]);
                    lemma_smaller_larger(hi0[i], rect.hi()[i]);
                    assert(at_most(lo0[i], hi0[i]));
                    lemma_at_most_transitive(lo1[i], lo0[i], hi0[i]);
                    lemma_at_most_transitive(lo1[i], hi0[i], hi1[i]);
                }
            }
        }
    }

    /// The differences between the upper and the lower corner can be
    /// computed, and then every step of the area.
    pub open spec fn can_area(self) -> bool {
        can_seq_minus(self.hi(), self.lo()) && can_volume(
            seq_minus(self.hi(), self.lo()),
            V::dims(),
        )
    }

    /// What `area` returns.
    pub open spec fn spec_area(self) -> V::Scalar {
        volume(seq_minus(self.hi(), self.lo()), V::dims())
    }

    /// Returns the rectangle's area.
    pub fn area(&self) -> (r: V::Scalar)
        requires
            self.can_area(),
        ensures
            r == self.spec_area(),
    {
        let diag = self.upper().sub(&self.lower());
        proof {
            diag.lemma_coords();
        }
        let mut acc = V::Scalar::one();
        let mut i: usize = 0;
        while i < V::dimensions()
            invariant
                i <= V::dims(),
                diag.coords().len() == V::dims(),
                can_volume(diag.coords(), V::dims()),
                acc == volume(diag.coords(), i as nat),
            decreases V::dims() - i,
        {
            proof {
                lemma_can_volume_prefix(diag.coords(), V::dims(), (i + 1) as nat);
            }
            acc = max_inline(acc.mul(*diag.nth(i)), V::Scalar::zero());
            i += 1;
        }
        acc
    }

    /// Where the rectangle is proper, the differences between the upper and
    /// the lower corner can be computed, and then every step of their sum.
    pub open spec fn can_half_margin(self) -> bool {
        self.is_proper() ==> can_seq_minus(self.hi(), self.lo()) && can_sum_of(
            seq_minus(self.hi(), self.lo()),
            V::dims(),
        )
    }

    /// What `half_margin` returns: the sum of the extents of a proper
    /// rectangle; zero where on some axis the upper corner lies below the
    /// lower one.
    pub open spec fn spec_half_margin(self) -> V::Scalar {
        if self.is_proper() {
            sum_of(seq_minus(self.hi(), self.lo()), V::dims())
        } else {
            V::Scalar::nought()
        }
    }

    /// Returns half of the rectangle's margin, thus `width + height`; zero
    /// for a rectangle that is not proper, such as the intersection of two
    /// rectangles that do not meet.
    pub fn half_margin(&self) -> (r: V::Scalar)
        requires
            self.can_half_margin(),
        ensures
            r == self.spec_half_margin(),
    {
        if !self.lower.all_at_most(&self.upper) {
            return V::Scalar::zero();
        }
        let diag = self.upper().sub(&self.lower());
        proof {
            diag.lemma_coords();
        }
        let mut acc = V::Scalar::zero();
        let mut i: usize = 0;
        while i < V::dimensions()
            invariant
                i <= V::dims(),
                diag.coords().len() == V::dims(),
                can_sum_of(diag.coords(), V::dims()),
                acc == sum_of(diag.coords(), i as nat),
            decreases V::dims() - i,
        {
            proof {
                lemma_can_sum_of_prefix(diag.coords(), V::dims(), (i + 1) as nat);
            }
            acc = acc.add(*diag.nth(i));
            i += 1;
        }
        acc
    }

    /// The number two.
    pub open spec fn two() -> V::Scalar {
        V::Scalar::unit().plus(V::Scalar::unit())
    }

    /// Every step of `center` can be computed.
    pub open spec fn can_center(self) -> bool {
        &&& V::Scalar::unit().can_add(V::Scalar::unit())
        &&& can_seq_minus(self.hi(), self.lo())
        &&& can_seq_over(seq_minus(self.hi(), self.lo()), Self::two())
        &&& can_seq_plus(self.lo(), seq_over(seq_minus(self.hi(), self.lo()), Self::two()))
    }

    /// Returns the rectangle's center: the lower corner plus half of the
    /// difference between the corners.
    pub fn center(&self) -> (r: V)
        requires
            self.can_center(),
        ensures
            r.coords() == seq_plus(
                self.lo(),
                seq_over(seq_minus(self.hi(), self.lo()), Self::two()),
            ),
    {
        let two = V::Scalar::one().add(V::Scalar::one());
        self.lower().add(&(self.upper().sub(&self.lower()).div(two)))
    }

    /// Returns the intersection of this and another bounding rectangle.
    ///
    /// If the rectangles do not intersect, the result is no proper
    /// rectangle: on some axis its lower corner lies above its upper
    /// corner, and its area is zero.
    pub fn intersect(&self, other: &BoundingRect<V>) -> (r: BoundingRect<V>)
        ensures
            r.lo() == seq_larger(self.lo(), other.lo()),
            r.hi() == seq_smaller(self.hi(), other.hi()),
    {
        BoundingRect {
            lower: self.lower.max_point(&other.lower),
            upper: self.upper.min_point(&other.upper),
        }
    }

    /// On every axis the two rectangles share a coordinate.
    pub open spec fn meets(self, other: Self) -> bool {
        seq_at_most(self.lo(), other.hi()) && seq_at_most(other.lo(), self.hi())
    }

    /// Returns true if this and another bounding rectangle intersect each other.
    /// If the rectangles just "touch" each other at one side, true is returned.
    pub fn intersects(&self, other: &BoundingRect<V>) -> (r: bool)
        ensures
            r == self.meets(*other),
    {
        self.lower.all_at_most(&other.upper()) && other.lower().all_at_most(&self.upper)
    }

    /// The point of the rectangle that is nearest to `point`.
    pub fn min_point(&self, point: &V) -> (r: V)
        ensures
            r.coords() == self.clamp(point.coords()),
    {
        proof {
            self.lower.lemma_coords();
            self.upper.lemma_coords();
            point.lemma_coords();
        }
        self.upper.min_point(&self.lower.max_point(&point))
    }

    /// Every step of `min_dist2` can be computed.
    pub open spec fn can_min_dist2(self, p: Seq<V::Scalar>) -> bool {
        can_seq_minus(self.clamp(p), p) && can_sum_sq(seq_minus(self.clamp(p), p), V::dims())
    }

    /// What `min_dist2` returns for the point with coordinates `p`: the
    /// squared distance between the point and the point of the rectangle
    /// that is nearest to it.
    pub open spec fn spec_min_dist2(self, p: Seq<V::Scalar>) -> V::Scalar {
        sum_sq(seq_minus(self.clamp(p), p), V::dims())
    }

    /// The squared distance from `point` to the rectangle.
    pub fn min_dist2(&self, point: &V) -> (r: V::Scalar)
        requires
            self.can_min_dist2(point.coords()),
        ensures
            r == self.spec_min_dist2(point.coords()),
    {
        self.min_point(point).sub(point).length2()
    }

    /// On each axis, the larger of the distances from `p` to the two
    /// bounds.
    pub open spec fn reach(self, p: Seq<V::Scalar>) -> Seq<V::Scalar> {
        seq_larger(
            seq_magnitude(seq_minus(self.lo(), p)),
            seq_magnitude(seq_minus(self.hi(), p)),
        )
    }

    /// Every step of `max_dist2` can be computed.
    pub open spec fn can_max_dist2(self, p: Seq<V::Scalar>) -> bool {
        &&& can_seq_minus(self.lo(), p)
        &&& can_seq_minus(self.hi(), p)
        &&& can_seq_magnitude(seq_minus(self.lo(), p))
        &&& can_seq_magnitude(seq_minus(self.hi(), p))
        &&& can_sum_sq(self.reach(p), V::dims())
    }

    /// The squared distance from `point` to the corner of the rectangle
    /// that is farthest from it.
    pub fn max_dist2(&self, point: &V) -> (r: V::Scalar)
        requires
            self.can_max_dist2(point.coords()),
        ensures
            r == sum_sq(self.reach(point.coords()), V::dims()),
    {
        let l = self.lower();
        let u = self.upper();
        let d1: V = l.sub(point).abs();
        let d2: V = u.sub(point).abs();
        let max_delta = d1.max_point(&d2);
        max_delta.length2()
    }

    /// Every step of `min_max_dist2` can be computed.
    pub open spec fn can_min_max_dist2(self, p: Seq<V::Scalar>) -> bool {
        &&& can_seq_minus(self.lo(), p)
        &&& can_seq_minus(self.hi(), p)
        &&& can_seq_magnitude(seq_minus(self.lo(), p))
        &&& can_seq_magnitude(seq_minus(self.hi(), p))
        &&& forall|i: int|
            0 <= i < V::dims() ==> #[trigger] can_far_on_axis(
                seq_minus(self.lo(), p),
                seq_minus(self.hi(), p),
                i,
            )
    }

    /// What `min_max_dist2` returns for the point with coordinates `p`:
    /// the least, over the axes, of the squared distance from `p` to the
    /// point of the rectangle that on this axis lies on the bound farther
    /// from `p`, and on all others on the nearer one.
    pub open spec fn spec_min_max_dist2(self, p: Seq<V::Scalar>) -> V::Scalar {
        least_far(seq_minus(self.lo(), p), seq_minus(self.hi(), p), V::dims())
    }

    /// The least, over the axes, of the squared distance from `point` to
    /// the point of the rectangle that lies on the farther bound on this
    /// axis and on the nearer bound on every other axis. In two dimensions
    /// this is an upper bound for the squared distance from `point` to the
    /// nearest object in the rectangle, given that objects touch every side
    /// of it.
    pub fn min_max_dist2(&self, point: &V) -> (r: V::Scalar)
        requires
            self.can_min_max_dist2(point.coords()),
        ensures
            r == self.spec_min_max_dist2(point.coords()),
    {
        let l = self.lower().sub(point);
        let u = self.upper().sub(point);
        let (mut min, mut max) = (V::new(), V::new());
        proof {
            l.lemma_coords();
            u.lemma_coords();
            min.lemma_coords();
            max.lemma_coords();
        }
        let mut i: usize = 0;
        while i < V::dimensions()
            invariant
                i <= V::dims(),
                l.coords().len() == V::dims(),
                u.coords().len() == V::dims(),
                min.coords().len() == V::dims(),
                max.coords().len() == V::dims(),
                can_seq_magnitude(l.coords()),
                can_seq_magnitude(u.coords()),
                forall|j: int|
                    0 <= j < i ==> #[trigger] min.coords()[j] == nearer(l.coords(), u.coords())[j],
                forall|j: int|
                    0 <= j < i ==> #[trigger] max.coords()[j] == farther(l.coords(), u.coords())[j],
            decreases V::dims() - i,
        {
            proof {
                assert(l.coords()[i as int].can_abs());
                assert(u.coords()[i as int].can_abs());
            }
            if l.nth(i).abs().lt(u.nth(i).abs()) {
                *min.nth_mut(i) = *l.nth(i);
                *max.nth_mut(i) = *u.nth(i);
            } else {
                *min.nth_mut(i) = *u.nth(i);
                *max.nth_mut(i) = *l.nth(i);
            }
            i += 1;
        }
        proof {
            assert(min.coords() =~= nearer(l.coords(), u.coords()));
            assert(max.coords() =~= farther(l.coords(), u.coords()));
        }
        let mut result = V::Scalar::zero();
        let mut i: usize = 0;
        while i < V::dimensions()
            invariant
                i <= V::dims(),
                l.coords().len() == V::dims(),
                u.coords().len() == V::dims(),
                min.coords() == nearer(l.coords(), u.coords()),
                max.coords() == farther(l.coords(), u.coords()),
                forall|j: int|
                    0 <= j < V::dims() ==> #[trigger] can_far_on_axis(
                        l.coords(),
                        u.coords(),
                        j,
                    ),
                result == least_far(l.coords(), u.coords(), i as nat),
            decreases V::dims() - i,
        {
            let mut p = min;
            // Only set one component to the maximum distance
            *p.nth_mut(i) = *max.nth(i);
            proof {
                assert(can_far_on_axis(l.coords(), u.coords(), i as int));
            }
            let new_dist = p.length2();
            if new_dist.lt(result) || i == 0 {
                result = new_dist
            }
            i += 1;
        }
        result
    }
}

/// Where the volume over `k` extents can be computed, that over the first
/// `j` of them can.
pub proof fn lemma_can_volume_prefix<S: SpadeNum>(d: Seq<S>, k: nat, j: nat)
    requires
        can_volume(d, k),
        j <= k,
    ensures
        can_volume(d, j),
    decreases k,
{
    if j < k {
        lemma_can_volume_prefix(d, (k - 1) as nat, j);
    }
}

/// Where the sum of `k` extents can be computed, that of the first `j` of
/// them can.
pub proof fn lemma_can_sum_of_prefix<S: SpadeNum>(d: Seq<S>, k: nat, j: nat)
    requires
        can_sum_of(d, k),
        j <= k,
    ensures
        can_sum_of(d, j),
    decreases k,
{
    if j < k {
        lemma_can_sum_of_prefix(d, (k - 1) as nat, j);
    }
}

impl<V> SpatialObject for BoundingRect<V> where V: PointN {
    type Point = V;

    open spec fn spec_mbr(&self) -> BoundingRect<V> {
        *self
    }

    open spec fn spec_distance2(&self, point: &V) -> V::Scalar {
        self.spec_min_dist2(point.coords())
    }

    open spec fn spec_contains(&self, point: &V) -> bool {
        self.holds(point.coords())
    }

    open spec fn can_measure(&self, point: &V) -> bool {
        self.can_min_dist2(point.coords())
    }

    fn mbr(&self) -> (r: BoundingRect<V>) {
        *self
    }

    fn distance2(&self, point: &V) -> (r: V::Scalar) {
        self.min_dist2(point)
    }

    fn contains(&self, point: &V) -> (r: bool) {
        self.contains_point(point)
    }
}

} // verus!
