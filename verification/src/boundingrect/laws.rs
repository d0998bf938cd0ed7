//! What holds of bounding rectangles over every scalar type, and what the
//! distance of a point from a rectangle is where the arithmetic is exact.

use crate::boundingrect::{
    can_far_on_axis, can_sum_of, can_volume, far_on_axis, farther, highest, least_far,
    lemma_at_most_transitive, lemma_smaller_larger, lowest, nearer, sum_of, volume, BoundingRect,
};
use crate::point_traits::{
    can_seq_magnitude, can_seq_minus, can_sum_sq, seq_at_most, seq_larger, seq_minus, seq_smaller,
    sum_sq, PointN,
};
use crate::traits::{at_most, larger, smaller, ExactNum, SpadeNum};
use vstd::prelude::*;

verus! {

/// The rectangle around a list of points holds each of them.
pub proof fn law_hull_holds_points<V: PointN>(points: Seq<V>, n: nat, j: int)
    requires
        1 <= n <= points.len(),
        0 <= j < n,
        forall|k: int| 0 <= k < n ==> (#[trigger] points[k]).coords().len() == V::dims(),
    ensures
        lowest(points, n).len() == V::dims(),
        highest(points, n).len() == V::dims(),
        seq_at_most(lowest(points, n), points[j].coords()),
        seq_at_most(points[j].coords(), highest(points, n)),
    decreases n,
{
    let p = points[j].coords();
    assert(points[0].coords().len() == V::dims());
    if n <= 1 {
        assert forall|i: int| 0 <= i < p.len() implies #[trigger] at_most(p[i], p[i]) by {
            lemma_smaller_larger(p[i], p[i]);
        }
    } else {
        let lo = lowest(points, (n - 1) as nat);
        let hi = highest(points, (n - 1) as nat);
        let q = points[n - 1].coords();
        law_hull_holds_points(points, (n - 1) as nat, if j < n - 1 {
            j
        } else {
            0
        });
        assert forall|i: int| 0 <= i < V::dims() implies #[trigger] at_most(
            lowest(points, n)[i],
            p[i],
        ) && at_most(p[i], highest(points, n)[i]) by {
            lemma_smaller_larger(lo[i], q[i]);
            lemma_smaller_larger(hi[i], q[i]);
            if j < n - 1 {
                assert(at_most(lo[i], p[i]));
                assert(at_most(p[i], hi[i]));
                lemma_at_most_transitive(smaller(lo[i], q[i]), lo[i], p[i]);
                lemma_at_most_transitive(p[i], hi[i], larger(hi[i], q[i]));
            }
        }
        assert(seq_at_most(p, highest(points, n))) by {
            assert forall|i: int| 0 <= i < p.len() implies #[trigger] at_most(
                p[i],
                highest(points, n)[i],
            ) by {
                assert(at_most(lowest(points, n)[i], p[i]));
            }
        }
    }
}

/// The rectangle around a list of points is tight: on every axis each of
/// its two bounds is a coordinate of one of the points.
pub proof fn law_hull_is_tight<V: PointN>(points: Seq<V>, n: nat, i: int) -> (found: (int, int))
    requires
        1 <= n <= points.len(),
        0 <= i < V::dims(),
        forall|k: int| 0 <= k < n ==> (#[trigger] points[k]).coords().len() == V::dims(),
    ensures
        0 <= found.0 < n,
        0 <= found.1 < n,
        lowest(points, n)[i] == points[found.0].coords()[i],
        highest(points, n)[i] == points[found.1].coords()[i],
    decreases n,
{
    assert(points[0].coords().len() == V::dims());
    if n <= 1 {
        (0, 0)
    } else {
        let rest = law_hull_is_tight(points, (n - 1) as nat, i);
        law_hull_holds_points(points, (n - 1) as nat, 0);
        let lo = lowest(points, (n - 1) as nat);
        let hi = highest(points, (n - 1) as nat);
        let q = points[n - 1].coords();
        (
            if lo[i].below(q[i]) {
                rest.0
            } else {
                n - 1
            },
            if q[i].below(hi[i]) {
                rest.1
            } else {
                n - 1
            },
        )
    }
}

/// The lower corners of a list of rectangles.
pub open spec fn lower_corners<V: PointN>(rects: Seq<BoundingRect<V>>) -> Seq<V> {
    Seq::new(rects.len(), |j: int| rects[j].spec_lower())
}

/// The upper corners of a list of rectangles.
pub open spec fn upper_corners<V: PointN>(rects: Seq<BoundingRect<V>>) -> Seq<V> {
    Seq::new(rects.len(), |j: int| rects[j].spec_upper())
}

/// The lower corner of the first of the rectangles after the next `k - 1`
/// of them were added to it with `add_rect`.
pub open spec fn union_lo<V: PointN>(rects: Seq<BoundingRect<V>>, k: nat) -> Seq<V::Scalar> {
    lowest(lower_corners(rects), k)
}

/// The upper corner of the first of the rectangles after the next `k - 1`
/// of them were added to it with `add_rect`.
pub open spec fn union_hi<V: PointN>(rects: Seq<BoundingRect<V>>, k: nat) -> Seq<V::Scalar> {
    highest(upper_corners(rects), k)
}

/// A rectangle to which others are added one by one with `add_rect` becomes
/// their union exactly: each step takes the smaller lower and the larger
/// upper coordinate, the result contains every one of the rectangles, and on
/// every axis each of its bounds is a bound of one of them.
pub proof fn law_union_of_rects<V: PointN>(
    rects: Seq<BoundingRect<V>>,
    n: nat,
    j: int,
    i: int,
) -> (found: (int, int))
    requires
        1 <= n <= rects.len(),
        0 <= j < n,
        0 <= i < V::dims(),
    ensures
        n >= 2 ==> union_lo(rects, n) == seq_smaller(
            union_lo(rects, (n - 1) as nat),
            rects[n - 1].lo(),
        ) && union_hi(rects, n) == seq_larger(union_hi(rects, (n - 1) as nat), rects[n - 1].hi()),
        n == 1 ==> union_lo(rects, n) == rects[0].lo() && union_hi(rects, n) == rects[0].hi(),
        seq_at_most(union_lo(rects, n), rects[j].lo()),
        seq_at_most(rects[j].hi(), union_hi(rects, n)),
        0 <= found.0 < n,
        0 <= found.1 < n,
        union_lo(rects, n)[i] == rects[found.0].lo()[i],
        union_hi(rects, n)[i] == rects[found.1].hi()[i],
{
    let lows = lower_corners(rects);
    let ups = upper_corners(rects);
    assert forall|k: int| 0 <= k < n implies (#[trigger] lows[k]).coords().len() == V::dims() by {
        rects[k].spec_lower().lemma_coords();
    }
    assert forall|k: int| 0 <= k < n implies (#[trigger] ups[k]).coords().len() == V::dims() by {
        rects[k].spec_upper().lemma_coords();
    }
    law_hull_holds_points(lows, n, j);
    law_hull_holds_points(ups, n, j);
    let low = law_hull_is_tight(lows, n, i);
    let up = law_hull_is_tight(ups, n, i);
    (low.0, up.1)
}

impl<V> BoundingRect<V> where V: PointN {
    /// A rectangle that is enlarged to take in a point still holds what it
    /// held.
    pub proof fn law_enlarging_keeps_points(self, grown: Self, p: Seq<V::Scalar>, q: Seq<V::Scalar>)
        requires
            self.lo().len() == V::dims(),
            self.hi().len() == V::dims(),
            p.len() == V::dims(),
            q.len() == V::dims(),
            grown.lo() == seq_smaller(self.lo(), p),
            grown.hi() == seq_larger(self.hi(), p),
            self.holds(q),
        ensures
            grown.holds(q),
    {
        assert forall|i: int| 0 <= i < V::dims() implies #[trigger] at_most(grown.lo()[i], q[i])
            && at_most(q[i], grown.hi()[i]) by {
            lemma_smaller_larger(self.lo()[i], p[i]);
            lemma_smaller_larger(self.hi()[i], p[i]);
            assert(at_most(self.lo()[i], q[i]));
            assert(at_most(q[i], self.hi()[i]));
            lemma_at_most_transitive(grown.lo()[i], self.lo()[i], q[i]);
            lemma_at_most_transitive(q[i], self.hi()[i], grown.hi()[i]);
        }
        assert(seq_at_most(q, grown.hi())) by {
            assert forall|i: int| 0 <= i < q.len() implies #[trigger] at_most(q[i], grown.hi()[i])
                by {
                assert(at_most(grown.lo()[i], q[i]));
            }
        }
    }

    /// The intersection of two rectangles holds exactly the points that
    /// both hold.
    pub proof fn law_intersection_holds_common_points(
        self,
        other: Self,
        both: Self,
        q: Seq<V::Scalar>,
    )
        requires
            self.lo().len() == V::dims(),
            self.hi().len() == V::dims(),
            other.lo().len() == V::dims(),
            other.hi().len() == V::dims(),
            q.len() == V::dims(),
            both.lo() == seq_larger(self.lo(), other.lo()),
            both.hi() == seq_smaller(self.hi(), other.hi()),
        ensures
            both.holds(q) <==> self.holds(q) && other.holds(q),
    {
        if both.holds(q) {
            assert forall|i: int| 0 <= i < V::dims() implies #[trigger] at_most(self.lo()[i], q[i])
                && at_most(other.lo()[i], q[i]) by {
                lemma_smaller_larger(self.lo()[i], other.lo()[i]);
                assert(at_most(both.lo()[i], q[i]));
                lemma_at_most_transitive(self.lo()[i], both.lo()[i], q[i]);
                lemma_at_most_transitive(other.lo()[i], both.lo()[i], q[i]);
            }
            assert forall|i: int| 0 <= i < V::dims() implies #[trigger] at_most(q[i], self.hi()[i])
                && at_most(q[i], other.hi()[i]) by {
                lemma_smaller_larger(self.hi()[i], other.hi()[i]);
                assert(at_most(q[i], both.hi()[i]));
                lemma_at_most_transitive(q[i], both.hi()[i], self.hi()[i]);
                lemma_at_most_transitive(q[i], both.hi()[i], other.hi()[i]);
            }
            assert(seq_at_most(other.lo(), q)) by {
                assert forall|i: int| 0 <= i < other.lo().len() implies #[trigger] at_most(
                    other.lo()[i],
                    q[i],
                ) by {
                    assert(at_most(self.lo()[i], q[i]));
                }
            }
            assert(seq_at_most(q, other.hi())) by {
                assert forall|i: int| 0 <= i < q.len() implies #[trigger] at_most(
                    q[i],
                    other.hi()[i],
                ) by {
                    assert(at_most(q[i], self.hi()[i]));
                }
            }
        }
        if self.holds(q) && other.holds(q) {
            assert forall|i: int| 0 <= i < V::dims() implies #[trigger] at_most(both.lo()[i], q[i])
                by {
                assert(at_most(self.lo()[i], q[i]));
                assert(at_most(other.lo()[i], q[i]));
            }
            assert forall|i: int| 0 <= i < V::dims() implies #[trigger] at_most(q[i], both.hi()[i])
                by {
                assert(at_most(q[i], self.hi()[i]));
                assert(at_most(q[i], other.hi()[i]));
            }
        }
    }

    /// Two proper rectangles meet exactly if their intersection is a
    /// proper rectangle.
    pub proof fn law_intersection_is_proper_where_they_meet(self, other: Self, both: Self)
        requires
            self.lo().len() == V::dims(),
            self.hi().len() == V::dims(),
            other.lo().len() == V::dims(),
            other.hi().len() == V::dims(),
            self.is_proper(),
            other.is_proper(),
            both.lo() == seq_larger(self.lo(), other.lo()),
            both.hi() == seq_smaller(self.hi(), other.hi()),
        ensures
            both.is_proper() <==> self.meets(other),
    {
        if both.is_proper() {
            assert forall|i: int| 0 <= i < V::dims() implies #[trigger] at_most(
                self.lo()[i],
                other.hi()[i],
            ) && at_most(other.lo()[i], self.hi()[i]) by {
                lemma_smaller_larger(self.lo()[i], other.lo()[i]);
                lemma_smaller_larger(self.hi()[i], other.hi()[i]);
                assert(at_most(both.lo()[i], both.hi()[i]));
                lemma_at_most_transitive(self.lo()[i], both.lo()[i], both.hi()[i]);
                lemma_at_most_transitive(self.lo()[i], both.hi()[i], other.hi()[i]);
                lemma_at_most_transitive(other.lo()[i], both.lo()[i], both.hi()[i]);
                lemma_at_most_transitive(other.lo()[i], both.hi()[i], self.hi()[i]);
            }
            assert(seq_at_most(other.lo(), self.hi())) by {
                assert forall|i: int| 0 <= i < other.lo().len() implies #[trigger] at_most(
                    other.lo()[i],
                    self.hi()[i],
                ) by {
                    assert(at_most(self.lo()[i], other.hi()[i]));
                }
            }
        }
        if self.meets(other) {
            assert forall|i: int| 0 <= i < V::dims() implies #[trigger] at_most(
                both.lo()[i],
                both.hi()[i],
            ) by {
                assert(at_most(self.lo()[i], other.hi()[i]));
                assert(at_most(other.lo()[i], self.hi()[i]));
                assert(at_most(self.lo()[i], self.hi()[i]));
                assert(at_most(other.lo()[i], other.hi()[i]));
            }
        }
    }

    /// A rectangle that contains another holds every point that the other
    /// holds.
    pub proof fn law_contained_rectangle(self, inner: Self, q: Seq<V::Scalar>)
        requires
            self.lo().len() == V::dims(),
            self.hi().len() == V::dims(),
            inner.lo().len() == V::dims(),
            inner.hi().len() == V::dims(),
            q.len() == V::dims(),
            seq_at_most(self.lo(), inner.lo()),
            seq_at_most(inner.hi(), self.hi()),
            inner.holds(q),
        ensures
            self.holds(q),
    {
        assert forall|i: int| 0 <= i < V::dims() implies #[trigger] at_most(self.lo()[i], q[i])
            by {
            assert(at_most(self.lo()[i], inner.lo()[i]));
            assert(at_most(inner.lo()[i], q[i]));
            lemma_at_most_transitive(self.lo()[i], inner.lo()[i], q[i]);
        }
        assert forall|i: int| 0 <= i < V::dims() implies #[trigger] at_most(q[i], self.hi()[i])
            by {
            assert(at_most(q[i], inner.hi()[i]));
            assert(at_most(inner.hi()[i], self.hi()[i]));
            lemma_at_most_transitive(q[i], inner.hi()[i], self.hi()[i]);
        }
    }
}

/// The numbers that the scalars of `a` stand for.
pub open spec fn values<S: ExactNum>(a: Seq<S>) -> Seq<int> {
    Seq::new(a.len(), |i: int| a[i].value())
}

/// The squared Euclidean distance between the points `p` and `q`, over
/// their first `k` coordinates.
pub open spec fn dist2(p: Seq<int>, q: Seq<int>, k: nat) -> int
    decreases k,
{
    if k == 0 {
        0
    } else {
        dist2(p, q, (k - 1) as nat) + (q[k - 1] - p[k - 1]) * (q[k - 1] - p[k - 1])
    }
}

/// The point `q` lies in the closed box between the corners `lo` and `hi`.
pub open spec fn in_box(lo: Seq<int>, hi: Seq<int>, q: Seq<int>) -> bool {
    q.len() == lo.len() && forall|i: int| 0 <= i < lo.len() ==> lo[i] <= #[trigger] q[i] <= hi[i]
}

/// On one axis, the nearest number to `p` between `l` and `u` is no
/// farther from `p` than any other number between them.
pub proof fn lemma_clamped_is_nearest(l: int, u: int, p: int, c: int, q: int)
    requires
        l <= u,
        l <= q <= u,
        c == (if p < l {
            l
        } else if u < p {
            u
        } else {
            p
        }),
    ensures
        (c - p) * (c - p) <= (q - p) * (q - p),
{
    assert((c - p) * (c - p) <= (q - p) * (q - p)) by (nonlinear_arith)
        requires
            (0 <= c - p <= q - p) || (q - p <= c - p <= 0),
    ;
}

/// With exact arithmetic, the sum of squares that `min_dist2` adds up is
/// the squared distance from the point to the nearest point of the
/// rectangle, and no point of the rectangle is nearer.
pub proof fn lemma_sum_sq_is_distance<V: PointN>(
    rect: BoundingRect<V>,
    p: Seq<V::Scalar>,
    q: Seq<int>,
    k: nat,
) where V::Scalar: ExactNum
    requires
        rect.lo().len() == V::dims(),
        rect.hi().len() == V::dims(),
        p.len() == V::dims(),
        rect.is_proper(),
        k <= V::dims(),
        can_seq_minus(rect.clamp(p), p),
        can_sum_sq(seq_minus(rect.clamp(p), p), k),
        in_box(values(rect.lo()), values(rect.hi()), q),
    ensures
        sum_sq(seq_minus(rect.clamp(p), p), k).value() == dist2(
            values(p),
            values(rect.clamp(p)),
            k,
        ),
        sum_sq(seq_minus(rect.clamp(p), p), k).value() <= dist2(values(p), q, k),
    decreases k,
{
    let c = rect.clamp(p);
    let d = seq_minus(c, p);
    if k == 0 {
        V::Scalar::lemma_exact(V::Scalar::nought(), V::Scalar::nought());
    } else {
        let i = k - 1;
        lemma_sum_sq_is_distance(rect, p, q, (k - 1) as nat);
        let l = rect.lo()[i];
        let u = rect.hi()[i];
        assert(at_most(l, u));
        V::Scalar::lemma_exact(l, u);
        V::Scalar::lemma_exact(u, l);
        V::Scalar::lemma_exact(p[i], l);
        V::Scalar::lemma_exact(l, p[i]);
        let inner = larger(l, p[i]);
        V::Scalar::lemma_exact(u, inner);
        V::Scalar::lemma_exact(inner, u);
        assert(c[i] == smaller(u, inner));
        assert(c[i].can_sub(p[i]));
        V::Scalar::lemma_exact(c[i], p[i]);
        assert(d[i] == c[i].minus(p[i]));
        V::Scalar::lemma_exact(d[i], d[i]);
        let acc = sum_sq(d, (k - 1) as nat);
        V::Scalar::lemma_exact(acc, d[i].times(d[i]));
        assert(values(rect.lo())[i] <= q[i] <= values(rect.hi())[i]);
        lemma_clamped_is_nearest(l.value(), u.value(), p[i].value(), c[i].value(), q[i]);
    }
}

impl<V> BoundingRect<V> where V: PointN, V::Scalar: ExactNum {
    /// With exact arithmetic, `min_dist2` is the squared Euclidean distance
    /// from the point to the closed box: it is the squared distance to a
    /// point of the box, and no point of the box is nearer.
    pub proof fn law_min_dist2_is_distance_to_box(self, p: V, q: Seq<int>)
        requires
            self.is_proper(),
            self.can_min_dist2(p.coords()),
            in_box(values(self.lo()), values(self.hi()), q),
        ensures
            in_box(values(self.lo()), values(self.hi()), values(self.clamp(p.coords()))),
            self.spec_min_dist2(p.coords()).value() == dist2(
                values(p.coords()),
                values(self.clamp(p.coords())),
                V::dims(),
            ),
            self.spec_min_dist2(p.coords()).value() <= dist2(values(p.coords()), q, V::dims()),
    {
        self.spec_lower().lemma_coords();
        self.spec_upper().lemma_coords();
        p.lemma_coords();
        let pc = p.coords();
        lemma_sum_sq_is_distance(self, pc, q, V::dims());
        let c = self.clamp(pc);
        assert forall|i: int| 0 <= i < V::dims() implies values(self.lo())[i] <= #[trigger] values(
            c,
        )[i] <= values(self.hi())[i] by {
            let l = self.lo()[i];
            let u = self.hi()[i];
            assert(at_most(l, u));
            V::Scalar::lemma_exact(l, u);
            V::Scalar::lemma_exact(u, l);
            V::Scalar::lemma_exact(pc[i], l);
            V::Scalar::lemma_exact(l, pc[i]);
            let inner = larger(l, pc[i]);
            V::Scalar::lemma_exact(u, inner);
            V::Scalar::lemma_exact(inner, u);
            assert(c[i] == smaller(u, inner));
        }
    }

    /// With exact arithmetic, a point that the rectangle holds has distance
    /// zero from it.
    pub proof fn law_inside_has_distance_zero(self, p: V)
        requires
            self.is_proper(),
            self.can_min_dist2(p.coords()),
            self.holds(p.coords()),
        ensures
            self.spec_min_dist2(p.coords()).value() == 0,
    {
        self.spec_lower().lemma_coords();
        self.spec_upper().lemma_coords();
        p.lemma_coords();
        let pc = p.coords();
        let q = values(pc);
        assert forall|i: int| 0 <= i < V::dims() implies values(self.lo())[i] <= #[trigger] q[i]
            <= values(self.hi())[i] by {
            assert(at_most(self.lo()[i], pc[i]));
            assert(at_most(pc[i], self.hi()[i]));
            V::Scalar::lemma_exact(self.lo()[i], pc[i]);
            V::Scalar::lemma_exact(pc[i], self.lo()[i]);
            V::Scalar::lemma_exact(self.hi()[i], pc[i]);
            V::Scalar::lemma_exact(pc[i], self.hi()[i]);
        }
        self.law_min_dist2_is_distance_to_box(p, q);
        lemma_dist2_to_self(q, V::dims());
        lemma_dist2_not_negative(q, values(self.clamp(pc)), V::dims());
    }
}

/// On one axis, no number between `l` and `u` is farther from `p` than the
/// farther of the two bounds.
pub proof fn lemma_bound_is_farthest(l: int, u: int, p: int, r: int, q: int)
    requires
        l <= q <= u,
        r == (if vstd::math::abs(u - p) < vstd::math::abs(l - p) {
            vstd::math::abs(l - p)
        } else {
            vstd::math::abs(u - p)
        }),
    ensures
        (q - p) * (q - p) <= r * r,
{
    assert((q - p) * (q - p) <= r * r) by (nonlinear_arith)
        requires
            (0 <= q - p <= r) || (-r <= q - p <= 0),
    ;
}

/// The corner of the box between `lo` and `hi` that is farthest from `p`:
/// on each axis the bound that is farther from `p`, the upper one where both
/// are as far.
pub open spec fn far_corner(lo: Seq<int>, hi: Seq<int>, p: Seq<int>) -> Seq<int> {
    Seq::new(
        lo.len(),
        |i: int|
            if vstd::math::abs(hi[i] - p[i]) < vstd::math::abs(lo[i] - p[i]) {
                lo[i]
            } else {
                hi[i]
            },
    )
}

/// With exact arithmetic, the sum of squares that `max_dist2` adds up is
/// the squared distance from the point to the farthest corner of the
/// rectangle, and no point of the rectangle is farther.
pub proof fn lemma_sum_sq_is_far_distance<V: PointN>(
    rect: BoundingRect<V>,
    p: Seq<V::Scalar>,
    q: Seq<int>,
    k: nat,
) where V::Scalar: ExactNum
    requires
        rect.lo().len() == V::dims(),
        rect.hi().len() == V::dims(),
        p.len() == V::dims(),
        k <= V::dims(),
        can_seq_minus(rect.lo(), p),
        can_seq_minus(rect.hi(), p),
        can_seq_magnitude(seq_minus(rect.lo(), p)),
        can_seq_magnitude(seq_minus(rect.hi(), p)),
        can_sum_sq(rect.reach(p), k),
        in_box(values(rect.lo()), values(rect.hi()), q),
    ensures
        sum_sq(rect.reach(p), k).value() == dist2(
            values(p),
            far_corner(values(rect.lo()), values(rect.hi()), values(p)),
            k,
        ),
        sum_sq(rect.reach(p), k).value() >= dist2(values(p), q, k),
    decreases k,
{
    let d = rect.reach(p);
    if k == 0 {
        V::Scalar::lemma_exact(V::Scalar::nought(), V::Scalar::nought());
    } else {
        let i = k - 1;
        lemma_sum_sq_is_far_distance(rect, p, q, (k - 1) as nat);
        let l = rect.lo()[i];
        let u = rect.hi()[i];
        assert(l.can_sub(p[i]));
        assert(u.can_sub(p[i]));
        V::Scalar::lemma_exact(l, p[i]);
        V::Scalar::lemma_exact(u, p[i]);
        let dl = l.minus(p[i]);
        let du = u.minus(p[i]);
        assert(seq_minus(rect.lo(), p)[i] == dl);
        assert(seq_minus(rect.hi(), p)[i] == du);
        assert(dl.can_abs());
        assert(du.can_abs());
        V::Scalar::lemma_exact(dl, du);
        V::Scalar::lemma_exact(du, dl);
        let al = dl.magnitude();
        let au = du.magnitude();
        V::Scalar::lemma_exact(al, au);
        V::Scalar::lemma_exact(au, al);
        assert(d[i] == larger(al, au));
        V::Scalar::lemma_exact(d[i], d[i]);
        let acc = sum_sq(d, (k - 1) as nat);
        V::Scalar::lemma_exact(acc, d[i].times(d[i]));
        assert(values(rect.lo())[i] <= q[i] <= values(rect.hi())[i]);
        lemma_bound_is_farthest(l.value(), u.value(), p[i].value(), d[i].value(), q[i]);
        let c = far_corner(values(rect.lo()), values(rect.hi()), values(p))[i];
        assert((c - p[i].value()) * (c - p[i].value()) == d[i].value() * d[i].value())
            by (nonlinear_arith)
            requires
                c - p[i].value() == d[i].value() || c - p[i].value() == -d[i].value(),
        ;
    }
}

impl<V> BoundingRect<V> where V: PointN, V::Scalar: ExactNum {
    /// With exact arithmetic, `max_dist2` is the squared Euclidean distance
    /// from the point to the farthest corner of the box, and no point of
    /// the box is farther.
    pub proof fn law_max_dist2_is_distance_to_farthest_corner(self, p: V, q: Seq<int>)
        requires
            self.can_max_dist2(p.coords()),
            in_box(values(self.lo()), values(self.hi()), q),
        ensures
            sum_sq(self.reach(p.coords()), V::dims()).value() == dist2(
                values(p.coords()),
                far_corner(values(self.lo()), values(self.hi()), values(p.coords())),
                V::dims(),
            ),
            sum_sq(self.reach(p.coords()), V::dims()).value() >= dist2(
                values(p.coords()),
                q,
                V::dims(),
            ),
    {
        self.spec_lower().lemma_coords();
        self.spec_upper().lemma_coords();
        p.lemma_coords();
        lemma_sum_sq_is_far_distance(self, p.coords(), q, V::dims());
    }
}

/// The product of the first `k` of the numbers `d`.
pub open spec fn product(d: Seq<int>, k: nat) -> int
    decreases k,
{
    if k == 0 {
        1
    } else {
        product(d, (k - 1) as nat) * d[k - 1]
    }
}

/// The sum of the first `k` of the numbers `d`.
pub open spec fn total(d: Seq<int>, k: nat) -> int
    decreases k,
{
    if k == 0 {
        0
    } else {
        total(d, (k - 1) as nat) + d[k - 1]
    }
}

/// With exact arithmetic and extents that are not negative, the volume is
/// the product of the extents.
pub proof fn lemma_volume_is_product<S: ExactNum>(d: Seq<S>, k: nat)
    requires
        k <= d.len(),
        can_volume(d, k),
        forall|i: int| 0 <= i < k ==> (#[trigger] d[i]).value() >= 0,
    ensures
        volume(d, k).value() == product(values(d), k),
        product(values(d), k) >= 0,
    decreases k,
{
    S::lemma_exact(S::nought(), S::unit());
    if k > 0 {
        lemma_volume_is_product(d, (k - 1) as nat);
        let x = d[k - 1];
        assert(x.value() >= 0);
        let acc = volume(d, (k - 1) as nat);
        S::lemma_exact(acc, x);
        let prod = acc.times(x);
        S::lemma_exact(S::nought(), prod);
        S::lemma_exact(prod, S::nought());
        assert(acc.value() * x.value() >= 0) by (nonlinear_arith)
            requires
                acc.value() >= 0,
                x.value() >= 0,
        ;
    }
}

/// With exact arithmetic, the sum of the extents is their sum as numbers.
pub proof fn lemma_sum_of_is_total<S: ExactNum>(d: Seq<S>, k: nat)
    requires
        k <= d.len(),
        can_sum_of(d, k),
    ensures
        sum_of(d, k).value() == total(values(d), k),
    decreases k,
{
    S::lemma_exact(S::nought(), S::unit());
    if k > 0 {
        lemma_sum_of_is_total(d, (k - 1) as nat);
        S::lemma_exact(sum_of(d, (k - 1) as nat), d[k - 1]);
    }
}

/// With exact arithmetic, the volume is zero as soon as one extent is
/// negative, and it is never negative.
pub proof fn lemma_volume_of_negative_extent<S: ExactNum>(d: Seq<S>, k: nat, i: int)
    requires
        k <= d.len(),
        can_volume(d, k),
    ensures
        volume(d, k).value() >= 0,
        0 <= i < k && d[i].value() < 0 ==> volume(d, k).value() == 0,
    decreases k,
{
    S::lemma_exact(S::nought(), S::unit());
    if k > 0 {
        lemma_volume_of_negative_extent(d, (k - 1) as nat, i);
        let x = d[k - 1];
        let acc = volume(d, (k - 1) as nat);
        S::lemma_exact(acc, x);
        let prod = acc.times(x);
        S::lemma_exact(S::nought(), prod);
        S::lemma_exact(prod, S::nought());
        if 0 <= i < k && d[i].value() < 0 {
            if i == k - 1 {
                assert(acc.value() * x.value() <= 0) by (nonlinear_arith)
                    requires
                        acc.value() >= 0,
                        x.value() < 0,
                ;
            } else {
                assert(acc.value() * x.value() == 0) by (nonlinear_arith)
                    requires
                        acc.value() == 0,
                ;
            }
        }
    }
}

impl<V> BoundingRect<V> where V: PointN, V::Scalar: ExactNum {
    /// With exact arithmetic, the area of a proper rectangle is the product
    /// of its extents, and half its margin is their sum.
    pub proof fn law_area_and_margin_of_proper_rect(self)
        requires
            self.is_proper(),
            can_seq_minus(self.hi(), self.lo()),
        ensures
            self.can_area() ==> self.spec_area().value() == product(
                values(seq_minus(self.hi(), self.lo())),
                V::dims(),
            ),
            self.can_half_margin() ==> self.spec_half_margin().value() == total(
                values(seq_minus(self.hi(), self.lo())),
                V::dims(),
            ),
            forall|i: int|
                0 <= i < V::dims() ==> (#[trigger] values(seq_minus(self.hi(), self.lo()))[i])
                    == self.hi()[i].value() - self.lo()[i].value(),
    {
        self.spec_lower().lemma_coords();
        self.spec_upper().lemma_coords();
        let d = seq_minus(self.hi(), self.lo());
        assert forall|i: int| 0 <= i < V::dims() implies (#[trigger] d[i]).value() >= 0 && values(
            d,
        )[i] == self.hi()[i].value() - self.lo()[i].value() by {
            assert(at_most(self.lo()[i], self.hi()[i]));
            assert(self.hi()[i].can_sub(self.lo()[i]));
            V::Scalar::lemma_exact(self.hi()[i], self.lo()[i]);
            V::Scalar::lemma_exact(self.lo()[i], self.hi()[i]);
        }
        if self.can_area() {
            lemma_volume_is_product(d, V::dims());
        }
        if self.can_half_margin() {
            lemma_sum_of_is_total(d, V::dims());
        }
    }

    /// With exact arithmetic, a rectangle whose lower corner lies above its
    /// upper corner on some axis, such as the intersection of two
    /// rectangles that do not meet, has area zero.
    pub proof fn law_area_of_improper_rect_is_zero(self, i: int)
        requires
            self.can_area(),
            0 <= i < V::dims(),
            self.hi()[i].below(self.lo()[i]),
        ensures
            self.spec_area().value() == 0,
    {
        self.spec_lower().lemma_coords();
        self.spec_upper().lemma_coords();
        let d = seq_minus(self.hi(), self.lo());
        assert(self.hi()[i].can_sub(self.lo()[i]));
        V::Scalar::lemma_exact(self.hi()[i], self.lo()[i]);
        lemma_volume_of_negative_extent(d, V::dims(), i);
    }
}

impl<V> BoundingRect<V> where V: PointN {
    /// Half the margin of a rectangle that is not proper is zero.
    pub proof fn law_half_margin_of_improper_rect_is_zero(self)
        requires
            !self.is_proper(),
        ensures
            self.can_half_margin(),
            self.spec_half_margin() == V::Scalar::nought(),
    {
    }

    /// The intersection of two proper rectangles that do not meet is no
    /// proper rectangle, and half its margin is zero.
    pub proof fn law_disjoint_intersection_has_no_margin(self, other: Self, both: Self)
        requires
            self.lo().len() == V::dims(),
            self.hi().len() == V::dims(),
            other.lo().len() == V::dims(),
            other.hi().len() == V::dims(),
            self.is_proper(),
            other.is_proper(),
            !self.meets(other),
            both.lo() == seq_larger(self.lo(), other.lo()),
            both.hi() == seq_smaller(self.hi(), other.hi()),
        ensures
            !both.is_proper(),
            both.can_half_margin(),
            both.spec_half_margin() == V::Scalar::nought(),
    {
        self.law_intersection_is_proper_where_they_meet(other, both);
    }
}

impl<V> BoundingRect<V> where V: PointN, V::Scalar: ExactNum {
    /// With exact arithmetic, the intersection of two proper rectangles
    /// that do not meet has area zero and margin zero.
    pub proof fn law_disjoint_intersection_is_empty(self, other: Self, both: Self)
        requires
            self.lo().len() == V::dims(),
            self.hi().len() == V::dims(),
            other.lo().len() == V::dims(),
            other.hi().len() == V::dims(),
            self.is_proper(),
            other.is_proper(),
            !self.meets(other),
            both.lo() == seq_larger(self.lo(), other.lo()),
            both.hi() == seq_smaller(self.hi(), other.hi()),
        ensures
            both.spec_half_margin().value() == 0,
            both.can_area() ==> both.spec_area().value() == 0,
    {
        self.law_disjoint_intersection_has_no_margin(other, both);
        V::Scalar::lemma_exact(V::Scalar::nought(), V::Scalar::nought());
        let i = choose|i: int| 0 <= i < both.lo().len() && !at_most(both.lo()[i], both.hi()[i]);
        if both.can_area() {
            both.law_area_of_improper_rect_is_zero(i);
        }
    }
}

/// Where the squared distance between two points is zero, the points have
/// the same coordinates.
pub proof fn lemma_dist2_zero_means_equal(p: Seq<int>, q: Seq<int>, k: nat, i: int)
    requires
        dist2(p, q, k) == 0,
        0 <= i < k,
    ensures
        q[i] == p[i],
    decreases k,
{
    lemma_dist2_not_negative(p, q, (k - 1) as nat);
    let d = q[k - 1] - p[k - 1];
    assert(d * d >= 0 && (d * d == 0 ==> d == 0)) by (nonlinear_arith);
    if i < k - 1 {
        lemma_dist2_zero_means_equal(p, q, (k - 1) as nat, i);
    }
}

impl<V> BoundingRect<V> where V: PointN, V::Scalar: ExactNum {
    /// With exact arithmetic, a point has distance zero from a proper
    /// rectangle exactly if the rectangle holds it.
    pub proof fn law_distance_zero_means_inside(self, p: V)
        requires
            self.is_proper(),
            self.can_min_dist2(p.coords()),
        ensures
            self.spec_min_dist2(p.coords()).value() == 0 <==> self.holds(p.coords()),
    {
        self.spec_lower().lemma_coords();
        self.spec_upper().lemma_coords();
        p.lemma_coords();
        let pc = p.coords();
        if self.holds(pc) {
            self.law_inside_has_distance_zero(p);
        }
        if self.spec_min_dist2(pc).value() == 0 {
            let lo = values(self.lo());
            assert forall|i: int| 0 <= i < V::dims() implies lo[i] <= #[trigger] lo[i] <= values(
                self.hi(),
            )[i] by {
                assert(at_most(self.lo()[i], self.hi()[i]));
                V::Scalar::lemma_exact(self.lo()[i], self.hi()[i]);
                V::Scalar::lemma_exact(self.hi()[i], self.lo()[i]);
            }
            self.law_min_dist2_is_distance_to_box(p, lo);
            let c = values(self.clamp(pc));
            assert forall|i: int| 0 <= i < V::dims() implies #[trigger] at_most(self.lo()[i], pc[i])
                && at_most(pc[i], self.hi()[i]) by {
                lemma_dist2_zero_means_equal(values(pc), c, V::dims(), i);
                assert(values(self.lo())[i] <= c[i] <= values(self.hi())[i]);
                V::Scalar::lemma_exact(self.lo()[i], pc[i]);
                V::Scalar::lemma_exact(pc[i], self.lo()[i]);
                V::Scalar::lemma_exact(self.hi()[i], pc[i]);
                V::Scalar::lemma_exact(pc[i], self.hi()[i]);
            }
            assert(seq_at_most(pc, self.hi())) by {
                assert forall|i: int| 0 <= i < pc.len() implies #[trigger] at_most(
                    pc[i],
                    self.hi()[i],
                ) by {
                    assert(at_most(self.lo()[i], pc[i]));
                }
            }
        }
    }
}

/// The sum of the squares of the first `k` of the numbers `d`.
pub open spec fn sq_total(d: Seq<int>, k: nat) -> int
    decreases k,
{
    if k == 0 {
        0
    } else {
        sq_total(d, (k - 1) as nat) + d[k - 1] * d[k - 1]
    }
}

/// With exact arithmetic, a sum of squares is the sum of the squares of the
/// numbers.
pub proof fn lemma_sum_sq_value<S: ExactNum>(d: Seq<S>, k: nat)
    requires
        k <= d.len(),
        can_sum_sq(d, k),
    ensures
        sum_sq(d, k).value() == sq_total(values(d), k),
    decreases k,
{
    S::lemma_exact(S::nought(), S::unit());
    if k > 0 {
        lemma_sum_sq_value(d, (k - 1) as nat);
        S::lemma_exact(d[k - 1], d[k - 1]);
        S::lemma_exact(sum_sq(d, (k - 1) as nat), d[k - 1].times(d[k - 1]));
    }
}

/// A sum of squares grows with each of the squares.
pub proof fn lemma_sq_total_grows(a: Seq<int>, b: Seq<int>, k: nat)
    requires
        forall|j: int| 0 <= j < k ==> #[trigger] (a[j] * a[j]) <= b[j] * b[j],
    ensures
        sq_total(a, k) <= sq_total(b, k),
    decreases k,
{
    if k > 0 {
        lemma_sq_total_grows(a, b, (k - 1) as nat);
        assert(a[k - 1] * a[k - 1] <= b[k - 1] * b[k - 1]);
    }
}

/// The square of a number between `-r` and `r` is at most the square of
/// `r`.
pub proof fn lemma_square_bounded(a: int, r: int)
    requires
        -r <= a <= r,
    ensures
        a * a <= r * r,
{
    assert(a * a <= r * r) by (nonlinear_arith)
        requires
            -r <= a <= r,
    ;
}

/// The least of `far_on_axis` over the first `k` axes is `far_on_axis` of
/// one of them.
pub proof fn lemma_least_far_is_one<S: SpadeNum>(l: Seq<S>, u: Seq<S>, k: nat) -> (i: int)
    requires
        k >= 1,
    ensures
        0 <= i < k,
        least_far(l, u, k) == far_on_axis(l, u, i),
    decreases k,
{
    if k == 1 {
        0
    } else {
        let rest = lemma_least_far_is_one(l, u, (k - 1) as nat);
        if far_on_axis(l, u, k - 1).below(least_far(l, u, (k - 1) as nat)) {
            k - 1
        } else {
            rest
        }
    }
}

/// With exact arithmetic, on one axis of a proper rectangle: the offset
/// from the point to the nearest point of the rectangle is zero or the
/// nearer of the offsets to the two bounds, and the farther of these is as
/// long as the reach.
pub proof fn lemma_axis_offsets<V: PointN>(
    rect: BoundingRect<V>,
    p: Seq<V::Scalar>,
    j: int,
) where V::Scalar: ExactNum
    requires
        rect.lo().len() == V::dims(),
        rect.hi().len() == V::dims(),
        p.len() == V::dims(),
        0 <= j < V::dims(),
        rect.is_proper(),
        can_seq_minus(rect.clamp(p), p),
        can_seq_minus(rect.lo(), p),
        can_seq_minus(rect.hi(), p),
        can_seq_magnitude(seq_minus(rect.lo(), p)),
        can_seq_magnitude(seq_minus(rect.hi(), p)),
    ensures
        ({
            let l = seq_minus(rect.lo(), p);
            let u = seq_minus(rect.hi(), p);
            let g = seq_minus(rect.clamp(p), p)[j].value();
            let n = nearer(l, u)[j].value();
            let f = farther(l, u)[j].value();
            let r = rect.reach(p)[j].value();
            &&& g * g <= n * n
            &&& n * n <= f * f
            &&& f * f == r * r
            &&& l[j].value() == rect.lo()[j].value() - p[j].value()
            &&& u[j].value() == rect.hi()[j].value() - p[j].value()
            &&& nearer(l, u)[j] == l[j] || nearer(l, u)[j] == u[j]
            &&& r == (if vstd::math::abs(u[j].value()) < vstd::math::abs(l[j].value()) {
                vstd::math::abs(l[j].value())
            } else {
                vstd::math::abs(u[j].value())
            })
        }),
{
    let lo = rect.lo()[j];
    let hi = rect.hi()[j];
    let q = p[j];
    assert(at_most(lo, hi));
    V::Scalar::lemma_exact(lo, hi);
    V::Scalar::lemma_exact(hi, lo);
    V::Scalar::lemma_exact(lo, q);
    V::Scalar::lemma_exact(q, lo);
    V::Scalar::lemma_exact(hi, q);
    let inner = larger(lo, q);
    V::Scalar::lemma_exact(hi, inner);
    V::Scalar::lemma_exact(inner, hi);
    let c = rect.clamp(p)[j];
    assert(c == smaller(hi, inner));
    assert(c.can_sub(q));
    V::Scalar::lemma_exact(c, q);
    assert(lo.can_sub(q));
    assert(hi.can_sub(q));
    let l = lo.minus(q);
    let u = hi.minus(q);
    assert(seq_minus(rect.lo(), p)[j] == l);
    assert(seq_minus(rect.hi(), p)[j] == u);
    assert(l.can_abs());
    assert(u.can_abs());
    V::Scalar::lemma_exact(l, u);
    V::Scalar::lemma_exact(u, l);
    let al = l.magnitude();
    let au = u.magnitude();
    V::Scalar::lemma_exact(al, au);
    V::Scalar::lemma_exact(au, al);
    let g = c.minus(q).value();
    let n = nearer(seq_minus(rect.lo(), p), seq_minus(rect.hi(), p))[j].value();
    let f = farther(seq_minus(rect.lo(), p), seq_minus(rect.hi(), p))[j].value();
    let r = rect.reach(p)[j].value();
    assert(rect.reach(p)[j] == larger(al, au));
    assert(seq_minus(rect.clamp(p), p)[j] == c.minus(q));
    assert(g == 0 || g == n);
    assert(r >= 0 && (f == r || f == -r));
    assert(-r <= n <= r);
    lemma_square_bounded(n, r);
    assert(g * g <= n * n) by (nonlinear_arith)
        requires
            g == 0 || g == n,
    ;
    assert(f * f == r * r) by (nonlinear_arith)
        requires
            f == r || f == -r,
    ;
}

impl<V> BoundingRect<V> where V: PointN, V::Scalar: ExactNum {
    /// With exact arithmetic, the three distances of a point from a proper
    /// rectangle are in order: `min_dist2` is at most `min_max_dist2`,
    /// which is at most `max_dist2`.
    pub proof fn law_distances_are_ordered(self, p: V)
        requires
            self.is_proper(),
            V::dims() >= 1,
            self.can_min_dist2(p.coords()),
            self.can_min_max_dist2(p.coords()),
            self.can_max_dist2(p.coords()),
        ensures
            self.spec_min_dist2(p.coords()).value() <= self.spec_min_max_dist2(
                p.coords(),
            ).value(),
            self.spec_min_max_dist2(p.coords()).value() <= sum_sq(
                self.reach(p.coords()),
                V::dims(),
            ).value(),
    {
        self.spec_lower().lemma_coords();
        self.spec_upper().lemma_coords();
        p.lemma_coords();
        let pc = p.coords();
        let l = seq_minus(self.lo(), pc);
        let u = seq_minus(self.hi(), pc);
        let i = lemma_least_far_is_one(l, u, V::dims());
        let cand = nearer(l, u).update(i, farther(l, u)[i]);
        assert(can_far_on_axis(l, u, i));
        let least = seq_minus(self.clamp(pc), pc);
        let most = self.reach(pc);
        lemma_sum_sq_value(least, V::dims());
        lemma_sum_sq_value(cand, V::dims());
        lemma_sum_sq_value(most, V::dims());
        assert forall|j: int| 0 <= j < V::dims() implies #[trigger] (values(least)[j] * values(
            least,
        )[j]) <= values(cand)[j] * values(cand)[j] by {
            lemma_axis_offsets(self, pc, j);
        }
        assert forall|j: int| 0 <= j < V::dims() implies #[trigger] (values(cand)[j] * values(
            cand,
        )[j]) <= values(most)[j] * values(most)[j] by {
            lemma_axis_offsets(self, pc, j);
        }
        lemma_sq_total_grows(values(least), values(cand), V::dims());
        lemma_sq_total_grows(values(cand), values(most), V::dims());
    }
}

impl<V> BoundingRect<V> where V: PointN, V::Scalar: ExactNum {
    /// In two dimensions and with exact arithmetic, `min_max_dist2` bounds
    /// the distance to the nearest point of a set from above, where the
    /// proper rectangle fits the set tightly: where each of its four sides
    /// holds a point of the set, one of these points is no farther from `p`
    /// than `min_max_dist2` says. Here `on_lo[k]` and `on_hi[k]` are points
    /// of the set on the lower and on the upper side on axis `k`.
    pub proof fn law_min_max_dist2_bounds_nearest(
        self,
        p: V,
        on_lo: Seq<Seq<int>>,
        on_hi: Seq<Seq<int>>,
    ) -> (s: Seq<int>)
        requires
            V::dims() == 2,
            self.is_proper(),
            self.can_min_dist2(p.coords()),
            self.can_min_max_dist2(p.coords()),
            self.can_max_dist2(p.coords()),
            on_lo.len() == 2,
            on_hi.len() == 2,
            forall|k: int|
                0 <= k < 2 ==> in_box(values(self.lo()), values(self.hi()), #[trigger] on_lo[k])
                    && on_lo[k][k] == self.lo()[k].value(),
            forall|k: int|
                0 <= k < 2 ==> in_box(values(self.lo()), values(self.hi()), #[trigger] on_hi[k])
                    && on_hi[k][k] == self.hi()[k].value(),
        ensures
            s == on_lo[0] || s == on_lo[1] || s == on_hi[0] || s == on_hi[1],
            dist2(values(p.coords()), s, 2) <= self.spec_min_max_dist2(p.coords()).value(),
    {
        self.spec_lower().lemma_coords();
        self.spec_upper().lemma_coords();
        p.lemma_coords();
        let pc = p.coords();
        let l = seq_minus(self.lo(), pc);
        let u = seq_minus(self.hi(), pc);
        let i = lemma_least_far_is_one(l, u, 2);
        let k = 1 - i;
        let cand = nearer(l, u).update(i, farther(l, u)[i]);
        assert(can_far_on_axis(l, u, i));
        lemma_sum_sq_value(cand, 2);
        lemma_axis_offsets(self, pc, i);
        lemma_axis_offsets(self, pc, k);
        let _ = on_lo[k];
        let _ = on_hi[k];
        let s = if nearer(l, u)[k] == l[k] {
            on_lo[k]
        } else {
            on_hi[k]
        };
        let pv = values(pc);
        let cv = values(cand);
        assert(values(self.lo())[i] <= s[i] <= values(self.hi())[i]);
        lemma_bound_is_farthest(
            self.lo()[i].value(),
            self.hi()[i].value(),
            pc[i].value(),
            self.reach(pc)[i].value(),
            s[i],
        );
        assert(s[k] - pv[k] == cv[k]);
        assert((s[i] - pv[i]) * (s[i] - pv[i]) <= cv[i] * cv[i]);
        assert(sq_total(cv, 0) == 0);
        assert(sq_total(cv, 1) == cv[0] * cv[0]);
        assert(sq_total(cv, 2) == cv[0] * cv[0] + cv[1] * cv[1]);
        assert(dist2(pv, s, 0) == 0);
        assert(dist2(pv, s, 1) == (s[0] - pv[0]) * (s[0] - pv[0]));
        assert(dist2(pv, s, 2) == (s[0] - pv[0]) * (s[0] - pv[0]) + (s[1] - pv[1]) * (s[1]
            - pv[1]));
        s
    }
}

/// With exact arithmetic, the smaller and the larger of two scalars do not
/// depend on their order.
pub proof fn lemma_smaller_larger_commute<S: ExactNum>(a: S, b: S)
    ensures
        smaller(a, b) == smaller(b, a),
        larger(a, b) == larger(b, a),
{
    S::lemma_exact(a, b);
    S::lemma_exact(b, a);
}

impl<V> BoundingRect<V> where V: PointN, V::Scalar: ExactNum {
    /// With exact arithmetic, the intersection of two rectangles does not
    /// depend on their order, and neither does their union.
    pub proof fn law_intersection_and_union_commute(self, other: Self)
        requires
            self.lo().len() == other.lo().len(),
            self.hi().len() == other.hi().len(),
        ensures
            seq_larger(self.lo(), other.lo()) == seq_larger(other.lo(), self.lo()),
            seq_smaller(self.hi(), other.hi()) == seq_smaller(other.hi(), self.hi()),
            seq_smaller(self.lo(), other.lo()) == seq_smaller(other.lo(), self.lo()),
            seq_larger(self.hi(), other.hi()) == seq_larger(other.hi(), self.hi()),
    {
        let (a, b) = (self.lo(), other.lo());
        let (c, d) = (self.hi(), other.hi());
        assert forall|i: int| 0 <= i < a.len() implies #[trigger] larger(a[i], b[i]) == larger(
            b[i],
            a[i],
        ) by {
            lemma_smaller_larger_commute(a[i], b[i]);
        }
        assert forall|i: int| 0 <= i < a.len() implies #[trigger] smaller(a[i], b[i]) == smaller(
            b[i],
            a[i],
        ) by {
            lemma_smaller_larger_commute(a[i], b[i]);
        }
        assert forall|i: int| 0 <= i < c.len() implies #[trigger] larger(c[i], d[i]) == larger(
            d[i],
            c[i],
        ) by {
            lemma_smaller_larger_commute(c[i], d[i]);
        }
        assert forall|i: int| 0 <= i < c.len() implies #[trigger] smaller(c[i], d[i]) == smaller(
            d[i],
            c[i],
        ) by {
            lemma_smaller_larger_commute(c[i], d[i]);
        }
        assert(seq_larger(self.lo(), other.lo()) =~= seq_larger(other.lo(), self.lo()));
        assert(seq_smaller(self.hi(), other.hi()) =~= seq_smaller(other.hi(), self.hi()));
        assert(seq_smaller(self.lo(), other.lo()) =~= seq_smaller(other.lo(), self.lo()));
        assert(seq_larger(self.hi(), other.hi()) =~= seq_larger(other.hi(), self.hi()));
    }
}

/// A point has distance zero from itself.
pub proof fn lemma_dist2_to_self(p: Seq<int>, k: nat)
    ensures
        dist2(p, p, k) == 0,
    decreases k,
{
    if k > 0 {
        lemma_dist2_to_self(p, (k - 1) as nat);
    }
}

/// No squared distance is negative.
pub proof fn lemma_dist2_not_negative(p: Seq<int>, q: Seq<int>, k: nat)
    ensures
        dist2(p, q, k) >= 0,
    decreases k,
{
    if k > 0 {
        lemma_dist2_not_negative(p, q, (k - 1) as nat);
        let d = q[k - 1] - p[k - 1];
        assert(d * d >= 0) by (nonlinear_arith);
    }
}

} // verus!
