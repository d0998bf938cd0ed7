use spade::boundingrect::BoundingRect;
use spade::traits::{SpadeNum, SpatialObject};

/// A scalar of single precision floating point numbers.
#[derive(Clone, Copy, Debug, PartialEq)]
struct Real(f32);

impl SpadeNum for Real {
    fn nought() -> Self {
        Real(0.0)
    }

    fn unit() -> Self {
        Real(1.0)
    }

    fn plus(self, rhs: Self) -> Self {
        Real(self.0 + rhs.0)
    }

    fn minus(self, rhs: Self) -> Self {
        Real(self.0 - rhs.0)
    }

    fn times(self, rhs: Self) -> Self {
        Real(self.0 * rhs.0)
    }

    fn over(self, rhs: Self) -> Self {
        Real(self.0 / rhs.0)
    }

    fn magnitude(self) -> Self {
        Real(self.0.abs())
    }

    fn below(self, rhs: Self) -> bool {
        self.0 < rhs.0
    }

    fn can_add(self, _rhs: Self) -> bool {
        true
    }

    fn can_sub(self, _rhs: Self) -> bool {
        true
    }

    fn can_mul(self, _rhs: Self) -> bool {
        true
    }

    fn can_div(self, _rhs: Self) -> bool {
        true
    }

    fn can_abs(self) -> bool {
        true
    }

    fn zero() -> Self {
        Real(0.0)
    }

    fn one() -> Self {
        Real(1.0)
    }

    fn add(self, rhs: Self) -> Self {
        Real(self.0 + rhs.0)
    }

    fn sub(self, rhs: Self) -> Self {
        Real(self.0 - rhs.0)
    }

    fn mul(self, rhs: Self) -> Self {
        Real(self.0 * rhs.0)
    }

    fn div(self, rhs: Self) -> Self {
        Real(self.0 / rhs.0)
    }

    fn abs(self) -> Self {
        Real(self.0.abs())
    }

    fn lt(self, rhs: Self) -> bool {
        self.0 < rhs.0
    }

    fn le(self, rhs: Self) -> bool {
        self.0 <= rhs.0
    }

    fn lemma_order(_a: Self, _b: Self, _c: Self) {}
}

fn pt(x: f32, y: f32) -> [Real; 2] {
    [Real(x), Real(y)]
}

#[test]
fn test_add_points() {
    let points = [pt(0.0, 1.0), pt(1.0, 0.5), pt(2.0, -2.0), pt(0.0, 0.0)];
    let bb = BoundingRect::from_points(&points);
    assert_eq!(bb, BoundingRect::from_corners(&pt(0.0, -2.0), &pt(2.0, 1.0)));
    assert_eq!(bb.lower(), pt(0.0, -2.0));
    assert_eq!(bb.upper(), pt(2.0, 1.0));
}

#[test]
fn test_bounding_rect_distance2() {
    let rect = BoundingRect::from_corners(&pt(0.0, 0.0), &pt(1.0, 1.0));
    assert_eq!(rect.distance2(&pt(0.0, 0.5)), Real(0.0));
    assert_eq!(rect.distance2(&pt(0.0, -1.0)), Real(1.0));
    assert_eq!(rect.distance2(&pt(0.2, 0.7)), Real(0.0));
    assert_eq!(rect.distance2(&pt(2.0, 2.0)), Real(2.0));
    assert_eq!(rect.distance2(&pt(2.0, 0.5)), Real(1.0));
}

#[test]
fn float_rect_measures() {
    let rect = BoundingRect::from_corners(&pt(1.0, 3.0), &pt(-1.0, 0.5));
    assert_eq!(rect.lower(), pt(-1.0, 0.5));
    assert_eq!(rect.upper(), pt(1.0, 3.0));
    assert_eq!(rect.area(), Real(5.0));
    assert_eq!(rect.half_margin(), Real(4.5));
    assert_eq!(rect.center(), pt(0.0, 1.75));
    assert!(rect.contains(&pt(0.25, 0.5)));
    assert!(!rect.contains(&pt(0.25, 0.25)));
    assert_eq!(rect.mbr(), rect);
}

#[test]
fn from_point_is_a_single_point() {
    let rect = BoundingRect::from_point([3i64, -4]);
    assert_eq!(rect.lower(), [3, -4]);
    assert_eq!(rect.upper(), [3, -4]);
    assert!(rect.contains_point(&[3, -4]));
    assert!(!rect.contains_point(&[3, -3]));
    assert_eq!(rect.area(), 0);
    assert_eq!(rect.half_margin(), 0);
    assert_eq!(rect.center(), [3, -4]);
}

#[test]
fn from_points_holds_every_point_tightly() {
    let points = [[4i64, 1], [-2, 7], [0, 0], [3, -5], [4, 6]];
    let rect = BoundingRect::from_points(&points);
    assert_eq!(rect.lower(), [-2, -5]);
    assert_eq!(rect.upper(), [4, 7]);
    for p in points.iter() {
        assert!(rect.contains_point(p));
    }
    let single = BoundingRect::from_points(&[[9i64, 8]]);
    assert_eq!(single.lower(), [9, 8]);
    assert_eq!(single.upper(), [9, 8]);
}

#[test]
fn from_corners_orders_the_corners() {
    let rect = BoundingRect::from_corners(&[5i64, -1], &[2, 3]);
    assert_eq!(rect.lower(), [2, -1]);
    assert_eq!(rect.upper(), [5, 3]);
    let cube = BoundingRect::from_corners(&[1i64, 5, -3], &[0, 6, -4]);
    assert_eq!(cube.lower(), [0, 5, -4]);
    assert_eq!(cube.upper(), [1, 6, -3]);
    assert_eq!(cube.area(), 1);
    assert_eq!(cube.half_margin(), 3);
}

#[test]
fn contains_point_includes_the_border() {
    let rect = BoundingRect::from_corners(&[0i64, 0], &[4, 2]);
    assert!(rect.contains_point(&[0, 0]));
    assert!(rect.contains_point(&[4, 2]));
    assert!(rect.contains_point(&[2, 1]));
    assert!(!rect.contains_point(&[5, 1]));
    assert!(!rect.contains_point(&[2, -1]));
    assert!(!rect.contains_point(&[-1, 3]));
}

#[test]
fn contains_rect_needs_all_corners() {
    let rect = BoundingRect::from_corners(&[0i64, 0], &[4, 4]);
    assert!(rect.contains_rect(&BoundingRect::from_corners(&[1i64, 1], &[3, 3])));
    assert!(rect.contains_rect(&rect));
    assert!(!rect.contains_rect(&BoundingRect::from_corners(&[1i64, 1], &[5, 3])));
    assert!(!rect.contains_rect(&BoundingRect::from_corners(&[-1i64, 1], &[3, 3])));
}

#[test]
fn add_point_and_add_rect_only_enlarge() {
    let mut rect = BoundingRect::from_point([1i64, 1]);
    rect.add_point([1, 1]);
    assert_eq!(rect, BoundingRect::from_point([1i64, 1]));
    rect.add_point([3, 0]);
    assert_eq!(rect.lower(), [1, 0]);
    assert_eq!(rect.upper(), [3, 1]);
    rect.add_point([2, 1]);
    assert_eq!(rect.lower(), [1, 0]);
    assert_eq!(rect.upper(), [3, 1]);
    rect.add_rect(&BoundingRect::from_corners(&[-1i64, 0], &[2, 5]));
    assert_eq!(rect.lower(), [-1, 0]);
    assert_eq!(rect.upper(), [3, 5]);
    assert!(rect.contains_point(&[1, 1]));
    assert!(rect.contains_point(&[3, 0]));
}

#[test]
fn area_margin_and_center_of_integer_rect() {
    let rect = BoundingRect::from_corners(&[1i64, 2], &[5, 10]);
    assert_eq!(rect.area(), 32);
    assert_eq!(rect.half_margin(), 12);
    assert_eq!(rect.center(), [3, 6]);
    let odd = BoundingRect::from_corners(&[0i64, 0], &[3, 5]);
    assert_eq!(odd.center(), [1, 2]);
}

#[test]
fn intersect_of_overlapping_and_disjoint_rects() {
    let a = BoundingRect::from_corners(&[0i64, 0], &[4, 4]);
    let b = BoundingRect::from_corners(&[2i64, 1], &[6, 3]);
    let both = a.intersect(&b);
    assert_eq!(both.lower(), [2, 1]);
    assert_eq!(both.upper(), [4, 3]);
    assert_eq!(both.area(), 4);
    assert!(a.intersects(&b));
    assert!(b.intersects(&a));

    let c = BoundingRect::from_corners(&[5i64, 5], &[7, 8]);
    let none = a.intersect(&c);
    assert_eq!(none.lower(), [5, 5]);
    assert_eq!(none.upper(), [4, 4]);
    assert_eq!(none.area(), 0);
    assert_eq!(none.half_margin(), 0);
    assert!(!a.intersects(&c));

    let touching = BoundingRect::from_corners(&[4i64, 0], &[6, 4]);
    assert!(a.intersects(&touching));
    assert_eq!(a.intersect(&touching).area(), 0);
}

#[test]
fn min_point_clamps_to_the_rect() {
    let rect = BoundingRect::from_corners(&[0i64, 0], &[10, 5]);
    assert_eq!(rect.min_point(&[3, 2]), [3, 2]);
    assert_eq!(rect.min_point(&[-4, 2]), [0, 2]);
    assert_eq!(rect.min_point(&[12, 9]), [10, 5]);
    assert_eq!(rect.min_point(&[5, -1]), [5, 0]);
}

#[test]
fn min_dist2_is_distance_to_the_box() {
    let rect = BoundingRect::from_corners(&[0i64, 0], &[10, 5]);
    assert_eq!(rect.min_dist2(&[3, 2]), 0);
    assert_eq!(rect.min_dist2(&[10, 5]), 0);
    assert_eq!(rect.min_dist2(&[-3, 2]), 9);
    assert_eq!(rect.min_dist2(&[13, 9]), 25);
    assert_eq!(rect.min_dist2(&[5, -2]), 4);
    assert_eq!(rect.distance2(&[-3, -4]), 25);
    let mut least = i64::MAX;
    for x in 0..=10i64 {
        for y in 0..=5i64 {
            let d = (x - 13) * (x - 13) + (y - 9) * (y - 9);
            if d < least {
                least = d;
            }
        }
    }
    assert_eq!(rect.min_dist2(&[13, 9]), least);
}

#[test]
fn max_dist2_is_distance_to_the_farthest_corner() {
    let rect = BoundingRect::from_corners(&[0i64, 0], &[1, 1]);
    assert_eq!(rect.max_dist2(&[3, 0]), 10);
    assert_eq!(rect.max_dist2(&[0, 0]), 2);
    assert_eq!(rect.max_dist2(&[-2, -2]), 18);
    let wide = BoundingRect::from_corners(&[0i64, 0], &[10, 5]);
    assert_eq!(wide.max_dist2(&[2, 1]), 64 + 16);
}

#[test]
fn min_max_dist2_takes_the_far_bound_on_one_axis() {
    let rect = BoundingRect::from_corners(&[0i64, 0], &[10, 5]);
    // nearer offsets: (-2, -1); farther offsets: (8, 4)
    // far on the first axis: 64 + 1, far on the second axis: 4 + 16
    assert_eq!(rect.min_max_dist2(&[2, 1]), 20);
    // nearer offsets: (10, 5); farther offsets: (20, 10)
    assert_eq!(rect.min_max_dist2(&[-10, -5]), 200);
    let point = BoundingRect::from_point([3i64, 4]);
    assert_eq!(point.min_max_dist2(&[0, 0]), 25);
}

#[test]
fn integer_scalars_follow_integer_arithmetic() {
    assert_eq!(<i64 as SpadeNum>::zero(), 0);
    assert_eq!(<i64 as SpadeNum>::one(), 1);
    assert_eq!(SpadeNum::add(2i64, 3), 5);
    assert_eq!(SpadeNum::sub(2i64, 3), -1);
    assert_eq!(SpadeNum::mul(-2i64, 3), -6);
    assert_eq!(SpadeNum::div(-7i64, 2), -3);
    assert_eq!(SpadeNum::div(7i64, -2), -3);
    assert_eq!(SpadeNum::abs(-7i64), 7);
    assert_eq!(SpadeNum::abs(7i64), 7);
    assert_eq!(SpadeNum::abs(0i64), 0);
    assert!(SpadeNum::lt(-1i64, 0));
    assert!(!SpadeNum::lt(0i64, 0));
    assert!(SpadeNum::le(0i64, 0));
    assert!(!SpadeNum::le(1i64, 0));
    assert_eq!(spade::traits::min_inline(4i64, -4), -4);
    assert_eq!(spade::traits::max_inline(4i64, -4), 4);
}

#[test]
fn intersect_of_rects_apart_on_one_axis() {
    let a = BoundingRect::from_corners(&[0i64, 0], &[4, 4]);
    let b = BoundingRect::from_corners(&[5i64, 1], &[7, 3]);
    let none = a.intersect(&b);
    assert_eq!(none.lower(), [5, 1]);
    assert_eq!(none.upper(), [4, 3]);
    assert!(!a.intersects(&b));
    assert_eq!(none.area(), 0);
    // the extents are -1 and 2: the rectangles do not meet, and the margin
    // of what they share is zero
    assert_eq!(none.half_margin(), 0);
    assert!(!none.contains_point(&[4, 2]));
    assert!(!none.contains_point(&[5, 2]));
}

#[test]
fn the_three_distances_are_in_order() {
    let rect = BoundingRect::from_corners(&[0i64, 0], &[10, 5]);
    for x in -12..23i64 {
        for y in -9..15i64 {
            let p = [x, y];
            let least = rect.min_dist2(&p);
            let bound = rect.min_max_dist2(&p);
            let most = rect.max_dist2(&p);
            assert!(least <= bound);
            assert!(bound <= most);
            assert_eq!(least == 0, rect.contains_point(&p));
            // the rectangle fits its four corners tightly, and one of them
            // is no farther than the bound
            let nearest_corner = [[0, 0], [10, 0], [0, 5], [10, 5]]
                .iter()
                .map(|c: &[i64; 2]| (c[0] - x) * (c[0] - x) + (c[1] - y) * (c[1] - y))
                .min()
                .unwrap();
            assert!(least <= nearest_corner);
            assert!(nearest_corner <= bound);
        }
    }
}

#[test]
fn adding_rects_one_by_one_gives_their_union() {
    let rects = [
        BoundingRect::from_corners(&[3i64, 4], &[5, 6]),
        BoundingRect::from_corners(&[-1i64, 5], &[0, 9]),
        BoundingRect::from_corners(&[2i64, -3], &[8, 0]),
        BoundingRect::from_corners(&[4i64, 4], &[4, 4]),
    ];
    let mut forward = rects[0];
    for r in rects.iter().skip(1) {
        forward.add_rect(r);
    }
    let mut backward = rects[3];
    for r in rects.iter().rev().skip(1) {
        backward.add_rect(r);
    }
    assert_eq!(forward.lower(), [-1, -3]);
    assert_eq!(forward.upper(), [8, 9]);
    assert_eq!(forward, backward);
    for r in rects.iter() {
        assert!(forward.contains_rect(r));
    }
}

#[test]
fn half_margin_of_improper_rects_is_zero() {
    let a = BoundingRect::from_corners(&[0i64, 0, 0], &[4, 4, 4]);
    let b = BoundingRect::from_corners(&[1i64, 6, 1], &[3, 9, 3]);
    let none = a.intersect(&b);
    assert_eq!(none.lower(), [1, 6, 1]);
    assert_eq!(none.upper(), [3, 4, 3]);
    assert_eq!(none.half_margin(), 0);
    assert_eq!(none.area(), 0);
    assert_eq!(a.intersect(&a).half_margin(), 12);
    let apart = BoundingRect::from_corners(&pt(0.0, 0.0), &pt(1.0, 1.0))
        .intersect(&BoundingRect::from_corners(&pt(2.0, 0.25), &pt(3.0, 0.75)));
    assert_eq!(apart.half_margin(), Real(0.0));
    assert_eq!(apart.area(), Real(0.0));
}
