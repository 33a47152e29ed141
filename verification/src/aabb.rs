//! The axis-aligned bounding box, and what its operations compute.

use crate::envelope::Envelope;
use crate::num::{lemma_product_sign, max_inline, min_inline, saturate, trunc_div, RTreeNum};
use crate::point::{
    coord,
    distance_2_upto,
    lemma_saturated_square_sum,
    lemma_square_nonnegative,
    Point,
    PointExt,
};
use vstd::prelude::*;
use vstd::std_specs::cmp::PartialEqSpecImpl;

verus! {

/// An n-dimensional axis-aligned bounding box: the smallest box, aligned to
/// the axes, that contains an object.
#[derive(Clone, Copy, Debug, Eq)]
pub struct AABB<P: Point> {
    lower: P,
    upper: P,
}

impl<P: Point> PartialEq for AABB<P> {
    /// Whether the two boxes have the same corners.
    fn eq(&self, other: &Self) -> (r: bool) {
        let r = crate::point::points_equal(&self.lower, &other.lower) && crate::point::points_equal(
            &self.upper,
            &other.upper,
        );
        proof {
            if r {
                AABB::lemma_corners(*self, *other);
            }
        }
        r
    }
}

impl<P: Point> PartialEqSpecImpl for AABB<P> {
    open spec fn obeys_eq_spec() -> bool {
        true
    }

    open spec fn eq_spec(&self, other: &Self) -> bool {
        *self == *other
    }
}

/// The number of axes of the point type `P`.
pub open spec fn dims<P: Point>() -> int {
    P::DIMENSIONS as int
}

/// The lower bound of `e` on axis `i`.
pub open spec fn lo<P: Point>(e: AABB<P>, i: int) -> int {
    coord(e.lower_spec(), i)
}

/// The upper bound of `e` on axis `i`.
pub open spec fn hi<P: Point>(e: AABB<P>, i: int) -> int {
    coord(e.upper_spec(), i)
}

/// The smaller of two integers.
pub open spec fn min_int(a: int, b: int) -> int {
    if a < b {
        a
    } else {
        b
    }
}

/// The larger of two integers.
pub open spec fn max_int(a: int, b: int) -> int {
    if a > b {
        a
    } else {
        b
    }
}

/// No lower bound of `e` exceeds the upper bound of its axis.
pub open spec fn is_valid<P: Point>(e: AABB<P>) -> bool {
    forall|i: int|
        #![trigger lo(e, i)]
        #![trigger hi(e, i)]
        0 <= i < dims::<P>() ==> lo(e, i) <= hi(e, i)
}

/// `e` is the empty envelope.
pub open spec fn is_empty_envelope<P: Point>(e: AABB<P>) -> bool {
    forall|i: int|
        #![trigger lo(e, i)]
        #![trigger hi(e, i)]
        0 <= i < dims::<P>() ==> lo(e, i) == P::Scalar::upper_limit()
            && hi(e, i) == P::Scalar::lower_limit()
}

/// `p` lies in `e`.
pub open spec fn envelope_contains_point<P: Point>(e: AABB<P>, p: P) -> bool {
    forall|i: int|
        #![trigger lo(e, i)]
        #![trigger hi(e, i)]
        #![trigger coord(p, i)]
        0 <= i < dims::<P>() ==> lo(e, i) <= coord(p, i) <= hi(e, i)
}

/// `b` lies in `a`.
pub open spec fn envelope_contains<P: Point>(a: AABB<P>, b: AABB<P>) -> bool {
    forall|i: int|
#![trigger lo(a, i)]
#![trigger hi(a, i)]
#![trigger lo(b, i)]
#![trigger hi(b, i)]
0 <= i < dims::<P>() ==> lo(a, i) <= lo(b, i) && hi(b, i) <= hi(a, i)
}

/// `a` and `b` overlap or touch.
pub open spec fn envelopes_intersect<P: Point>(a: AABB<P>, b: AABB<P>) -> bool {
    forall|i: int|
#![trigger lo(a, i)]
#![trigger hi(a, i)]
#![trigger lo(b, i)]
#![trigger hi(b, i)]
0 <= i < dims::<P>() ==> lo(a, i) <= hi(b, i) && lo(b, i) <= hi(a, i)
}

/// `r` is the smallest envelope that contains `a` and `b`.
pub open spec fn is_merged<P: Point>(r: AABB<P>, a: AABB<P>, b: AABB<P>) -> bool {
    forall|i: int|
#![trigger lo(r, i)]
#![trigger hi(r, i)]
0 <= i < dims::<P>() ==> lo(r, i) == min_int(lo(a, i), lo(b, i))
            && hi(r, i) == max_int(hi(a, i), hi(b, i))
}

/// `a` and `b` have the same bounds.
pub open spec fn same_bounds<P: Point>(a: AABB<P>, b: AABB<P>) -> bool {
    forall|i: int|
#![trigger lo(a, i)]
#![trigger hi(a, i)]
0 <= i < dims::<P>() ==> lo(a, i) == lo(b, i) && hi(a, i) == hi(b, i)
}

/// The extent of `e` on axis `i`; zero where the bounds are crossed.
pub open spec fn extent<P: Point>(e: AABB<P>, i: int) -> int {
    max_int(hi(e, i) - lo(e, i), 0)
}

/// The product of the extents of `e` on the first `n` axes.
pub open spec fn area_upto<P: Point>(e: AABB<P>, n: int) -> int
    decreases n,
{
    if n <= 0 {
        1
    } else {
        area_upto(e, n - 1) * extent(e, n - 1)
    }
}

/// The area of `e`.
pub open spec fn envelope_area<P: Point>(e: AABB<P>) -> int {
    area_upto(e, dims::<P>())
}

/// The sum of the extents of `e` on the first `n` axes.
pub open spec fn perimeter_upto<P: Point>(e: AABB<P>, n: int) -> int
    decreases n,
{
    if n <= 0 {
        0
    } else {
        perimeter_upto(e, n - 1) + extent(e, n - 1)
    }
}

/// The sum of the extents of `e`.
pub open spec fn envelope_perimeter<P: Point>(e: AABB<P>) -> int {
    perimeter_upto(e, dims::<P>())
}

/// The extent on axis `i` of what `a` and `b` share.
pub open spec fn shared_extent<P: Point>(a: AABB<P>, b: AABB<P>, i: int) -> int {
    max_int(min_int(hi(a, i), hi(b, i)) - max_int(lo(a, i), lo(b, i)), 0)
}

/// The product of the shared extents of `a` and `b` on the first `n` axes.
pub open spec fn intersection_area_upto<P: Point>(a: AABB<P>, b: AABB<P>, n: int) -> int
    decreases n,
{
    if n <= 0 {
        1
    } else {
        intersection_area_upto(a, b, n - 1) * shared_extent(a, b, n - 1)
    }
}

/// The area of what `a` and `b` share; zero where they are disjoint.
pub open spec fn intersection_area<P: Point>(a: AABB<P>, b: AABB<P>) -> int {
    intersection_area_upto(a, b, dims::<P>())
}

/// On axis `i`, the coordinate of the point of `e` nearest to `p`.
pub open spec fn nearest_coord<P: Point>(e: AABB<P>, p: P, i: int) -> int {
    min_int(hi(e, i), max_int(lo(e, i), coord(p, i)))
}

/// The squared distance of `p` to its nearest point in `e`, over the first `n` axes.
pub open spec fn envelope_distance_2_upto<P: Point>(e: AABB<P>, p: P, n: int) -> int
    decreases n,
{
    if n <= 0 {
        0
    } else {
        envelope_distance_2_upto(e, p, n - 1) + (nearest_coord(e, p, n - 1) - coord(p, n - 1)) * (
        nearest_coord(e, p, n - 1) - coord(p, n - 1))
    }
}

/// The squared distance of `p` to its nearest point in `e`.
pub open spec fn envelope_distance_2<P: Point>(e: AABB<P>, p: P) -> int {
    envelope_distance_2_upto(e, p, dims::<P>())
}

/// On axis `i`, the squared distance of `p` to the nearer bound of `e`.
pub open spec fn near_square<P: Point>(e: AABB<P>, p: P, i: int) -> int {
    min_int(
        (lo(e, i) - coord(p, i)) * (lo(e, i) - coord(p, i)),
        (hi(e, i) - coord(p, i)) * (hi(e, i) - coord(p, i)),
    )
}

/// On axis `i`, the squared distance of `p` to the farther bound of `e`.
pub open spec fn far_square<P: Point>(e: AABB<P>, p: P, i: int) -> int {
    max_int(
        (lo(e, i) - coord(p, i)) * (lo(e, i) - coord(p, i)),
        (hi(e, i) - coord(p, i)) * (hi(e, i) - coord(p, i)),
    )
}

/// The squared distance of `p` to the corner of `e` that is nearest on axis
/// `k` and farthest on all others, summed over the first `n` axes.
pub open spec fn min_max_candidate_upto<P: Point>(e: AABB<P>, p: P, k: int, n: int) -> int
    decreases n,
{
    if n <= 0 {
        0
    } else {
        min_max_candidate_upto(e, p, k, n - 1) + if n - 1 == k {
            near_square(e, p, n - 1)
        } else {
            far_square(e, p, n - 1)
        }
    }
}

/// The squared distance of `p` to the corner of `e` that is nearest on axis
/// `k` and farthest on all others.
pub open spec fn min_max_candidate<P: Point>(e: AABB<P>, p: P, k: int) -> int {
    min_max_candidate_upto(e, p, k, dims::<P>())
}

/// The smallest candidate among the axes below `n`.
pub open spec fn min_max_upto<P: Point>(e: AABB<P>, p: P, n: int) -> int
    decreases n,
{
    if n <= 1 {
        min_max_candidate(e, p, 0)
    } else {
        min_int(min_max_upto(e, p, n - 1), min_max_candidate(e, p, n - 1))
    }
}

/// The squared min-max distance of `p` to `e`: within it, an envelope that is
/// the union of what it holds is certain to hold something.
pub open spec fn envelope_min_max_dist_2<P: Point>(e: AABB<P>, p: P) -> int {
    min_max_upto(e, p, dims::<P>())
}

/// The mean of the bounds of `e` on axis `i`, rounded towards zero.
pub open spec fn center_coord<P: Point>(e: AABB<P>, i: int) -> int {
    trunc_div(lo(e, i) + hi(e, i), 2)
}


/// The smallest coordinate on axis `i` among `points`; the largest number
/// where there are none.
pub open spec fn lowest_coord<P: Point>(points: Seq<P>, i: int) -> int
    decreases points.len(),
{
    if points.len() == 0 {
        P::Scalar::upper_limit()
    } else {
        min_int(lowest_coord(points.drop_last(), i), coord(points.last(), i))
    }
}

/// The largest coordinate on axis `i` among `points`; the smallest number
/// where there are none.
pub open spec fn highest_coord<P: Point>(points: Seq<P>, i: int) -> int
    decreases points.len(),
{
    if points.len() == 0 {
        P::Scalar::lower_limit()
    } else {
        max_int(highest_coord(points.drop_last(), i), coord(points.last(), i))
    }
}

/// Two boxes with the same bounds are the same box.
pub proof fn lemma_same_bounds<P: Point>(a: AABB<P>, b: AABB<P>)
    requires
        same_bounds(a, b),
    ensures
        a == b,
{
    assert forall|i: int| 0 <= i < P::DIMENSIONS implies coord(a.lower_spec(), i) == coord(
        b.lower_spec(),
        i,
    ) by {
        assert(lo(a, i) == lo(b, i));
    }
    assert forall|i: int| 0 <= i < P::DIMENSIONS implies coord(a.upper_spec(), i) == coord(
        b.upper_spec(),
        i,
    ) by {
        assert(hi(a, i) == hi(b, i));
    }
    crate::point::lemma_same_point(a.lower_spec(), b.lower_spec());
    crate::point::lemma_same_point(a.upper_spec(), b.upper_spec());
    AABB::lemma_corners(a, b);
}

/// Saturating the terms of a sum of numbers that are not negative does not
/// change the saturated sum.
pub proof fn lemma_saturated_sum<S: RTreeNum>(x: int, y: int, witness: S)
    requires
        x >= 0,
        y >= 0,
    ensures
        saturate::<S>(saturate::<S>(x) + saturate::<S>(y)) == saturate::<S>(x + y),
{
    S::lemma_limits(witness);
}

/// Saturating the factors of a product of numbers that are not negative does
/// not change the saturated product.
pub proof fn lemma_saturated_product<S: RTreeNum>(x: int, y: int, witness: S)
    requires
        x >= 0,
        y >= 0,
    ensures
        saturate::<S>(saturate::<S>(x) * saturate::<S>(y)) == saturate::<S>(x * y),
        x * y >= 0,
{
    S::lemma_limits(witness);
    let h = S::upper_limit();
    let a = saturate::<S>(x);
    let b = saturate::<S>(y);
    assert(x * y >= 0) by (nonlinear_arith)
        requires
            x >= 0,
            y >= 0,
    ;
    assert(a * b >= 0) by (nonlinear_arith)
        requires
            a >= 0,
            b >= 0,
    ;
    if x <= h && y <= h {
    } else if y == 0 || x == 0 {
        lemma_product_sign(x, y);
        lemma_product_sign(a, b);
    } else {
        assert(x * y >= h) by (nonlinear_arith)
            requires
                x >= 1,
                y >= 1,
                x > h || y > h,
        ;
        assert(a * b >= h) by (nonlinear_arith)
            requires
                a >= 1,
                b >= 1,
                a >= h || b >= h,
        ;
    }
}

/// The area of a box over its first axes is not negative.
pub proof fn lemma_area_nonnegative<P: Point>(e: AABB<P>, n: int)
    ensures
        area_upto(e, n) >= 0,
    decreases n,
{
    if n > 0 {
        lemma_area_nonnegative(e, n - 1);
        lemma_product_sign(area_upto(e, n - 1), extent(e, n - 1));
    }
}

/// The sum of the extents of a box is not negative.
pub proof fn lemma_perimeter_nonnegative<P: Point>(e: AABB<P>, n: int)
    ensures
        perimeter_upto(e, n) >= 0,
    decreases n,
{
    if n > 0 {
        lemma_perimeter_nonnegative(e, n - 1);
    }
}

/// The squared distance to a corner is not negative.
pub proof fn lemma_candidate_nonnegative<P: Point>(e: AABB<P>, p: P, k: int, n: int)
    ensures
        min_max_candidate_upto(e, p, k, n) >= 0,
    decreases n,
{
    if n > 0 {
        lemma_candidate_nonnegative(e, p, k, n - 1);
        lemma_square_nonnegative(lo(e, n - 1) - coord(p, n - 1));
        lemma_square_nonnegative(hi(e, n - 1) - coord(p, n - 1));
    }
}

/// The min-max distance is no larger than the distance to any of the corners
/// it is the smallest of.
pub proof fn lemma_min_max_smallest<P: Point>(e: AABB<P>, p: P, n: int, k: int)
    requires
        0 <= k < n,
    ensures
        min_max_upto(e, p, n) <= min_max_candidate(e, p, k),
    decreases n,
{
    if n > 1 && k < n - 1 {
        lemma_min_max_smallest(e, p, n - 1, k);
    }
}

/// The min-max distance is the distance to one of the corners it is the
/// smallest of.
pub proof fn lemma_min_max_attained<P: Point>(e: AABB<P>, p: P, n: int) -> (k: int)
    requires
        n >= 1,
    ensures
        0 <= k < n,
        min_max_upto(e, p, n) == min_max_candidate(e, p, k),
    decreases n,
{
    if n <= 1 {
        0
    } else if min_max_upto(e, p, n - 1) < min_max_candidate(e, p, n - 1) {
        lemma_min_max_attained(e, p, n - 1)
    } else {
        n - 1
    }
}

/// The farther bound of a box is no nearer than the farther bound of a box
/// within it.
pub proof fn lemma_far_square_monotone<P: Point>(outer: AABB<P>, inner: AABB<P>, p: P, i: int)
    requires
        0 <= i < dims::<P>(),
        is_valid(inner),
        envelope_contains(outer, inner),
    ensures
        far_square(inner, p, i) <= far_square(outer, p, i),
        0 <= near_square(inner, p, i) <= far_square(inner, p, i),
{
    assert(lo(inner, i) <= hi(inner, i));
    assert(lo(outer, i) <= lo(inner, i));
    assert(hi(inner, i) <= hi(outer, i));
    let c = coord(p, i);
    let a = lo(inner, i) - c;
    let b = hi(inner, i) - c;
    let big_a = lo(outer, i) - c;
    let big_b = hi(outer, i) - c;
    lemma_square_nonnegative(a);
    lemma_square_nonnegative(b);
    if a >= 0 {
        crate::point::lemma_square_monotone(a, big_b);
    } else {
        crate::point::lemma_square_monotone(a, big_a);
    }
    if b >= 0 {
        crate::point::lemma_square_monotone(b, big_b);
    } else {
        crate::point::lemma_square_monotone(b, big_a);
    }
}

/// The corner of a box within another, nearest on an axis on which it is no
/// farther than the other box and farthest on all others, is no farther than
/// that corner of the other box.
pub proof fn lemma_candidate_monotone<P: Point>(outer: AABB<P>, inner: AABB<P>, p: P, k: int, n: int)
    requires
        0 <= k < dims::<P>(),
        n <= dims::<P>(),
        is_valid(inner),
        envelope_contains(outer, inner),
        near_square(inner, p, k) <= near_square(outer, p, k),
    ensures
        0 <= min_max_candidate_upto(inner, p, k, n) <= min_max_candidate_upto(outer, p, k, n),
    decreases n,
{
    if n > 0 {
        lemma_candidate_monotone(outer, inner, p, k, n - 1);
        lemma_far_square_monotone(outer, inner, p, n - 1);
    }
}

/// A point is no farther from a box that holds something than the min-max
/// distance says.
pub proof fn lemma_distance_below_min_max<P: Point>(e: AABB<P>, p: P)
    requires
        is_valid(e),
    ensures
        envelope_distance_2(e, p) <= envelope_min_max_dist_2(e, p),
{
    P::lemma_dimensions();
    let k = lemma_min_max_attained(e, p, dims::<P>());
    lemma_distance_below_candidate(e, p, k, dims::<P>());
}

/// A point is no farther from a box than from any of its corners.
pub proof fn lemma_distance_below_candidate<P: Point>(e: AABB<P>, p: P, k: int, n: int)
    requires
        is_valid(e),
        n <= dims::<P>(),
    ensures
        0 <= envelope_distance_2_upto(e, p, n) <= min_max_candidate_upto(e, p, k, n),
    decreases n,
{
    if n > 0 {
        lemma_distance_below_candidate(e, p, k, n - 1);
        let i = n - 1;
        assert(lo(e, i) <= hi(e, i));
        let c = coord(p, i);
        let d = nearest_coord(e, p, i) - c;
        lemma_square_nonnegative(d);
        lemma_square_nonnegative(lo(e, i) - c);
        lemma_square_nonnegative(hi(e, i) - c);
        if c < lo(e, i) {
            assert(d == lo(e, i) - c);
            crate::point::lemma_square_monotone(lo(e, i) - c, hi(e, i) - c);
        } else if c > hi(e, i) {
            assert(d == hi(e, i) - c);
            crate::point::lemma_square_monotone(hi(e, i) - c, lo(e, i) - c);
        } else {
            assert(d == 0);
            assert(d * d == 0) by (nonlinear_arith)
                requires
                    d == 0,
            ;
        }
    }
}

/// The min-max distance to the empty envelope is beyond all numbers.
pub proof fn lemma_min_max_of_empty<P: Point>(e: AABB<P>, p: P)
    requires
        is_empty_envelope(e),
    ensures
        envelope_min_max_dist_2(e, p) >= P::Scalar::upper_limit(),
{
    P::lemma_dimensions();
    let k = lemma_min_max_attained(e, p, dims::<P>());
    let j = if k == 0 {
        1int
    } else {
        0int
    };
    lemma_candidate_holds_far(e, p, k, j, dims::<P>());
    P::Scalar::lemma_limits(p.nth_spec(j));
    let h = P::Scalar::upper_limit();
    let c = coord(p, j);
    assert(lo(e, j) == h);
    assert(hi(e, j) == -h - 1);
    let a = h - c;
    let b = -h - 1 - c;
    assert(a * a >= h || b * b >= h) by (nonlinear_arith)
        requires
            a - b == 2 * h + 1,
            a >= 0,
            b <= 0,
            h >= 1,
    ;
}

/// The distance to a corner is at least the squared distance to its bound on
/// any axis on which it is the farther.
pub proof fn lemma_candidate_holds_far<P: Point>(e: AABB<P>, p: P, k: int, j: int, n: int)
    requires
        0 <= j < n,
        j != k,
    ensures
        min_max_candidate_upto(e, p, k, n) >= far_square(e, p, j),
    decreases n,
{
    lemma_candidate_nonnegative(e, p, k, n - 1);
    if j < n - 1 {
        lemma_candidate_holds_far(e, p, k, j, n - 1);
        lemma_square_nonnegative(lo(e, n - 1) - coord(p, n - 1));
        lemma_square_nonnegative(hi(e, n - 1) - coord(p, n - 1));
    }
}

/// The area of what two boxes share is the area of the box between the
/// larger of their lower bounds and the smaller of their upper bounds.
pub proof fn lemma_clipped_area<P: Point>(c: AABB<P>, a: AABB<P>, b: AABB<P>, n: int)
    requires
        n <= dims::<P>(),
        forall|i: int|
#![trigger lo(c, i)]
#![trigger hi(c, i)]
0 <= i < dims::<P>() ==> lo(c, i) == max_int(lo(a, i), lo(b, i))
                && hi(c, i) == min_int(hi(a, i), hi(b, i)),
    ensures
        area_upto(c, n) == intersection_area_upto(a, b, n),
    decreases n,
{
    if n > 0 {
        lemma_clipped_area(c, a, b, n - 1);
        assert(lo(c, n - 1) == max_int(lo(a, n - 1), lo(b, n - 1)));
        assert(hi(c, n - 1) == min_int(hi(a, n - 1), hi(b, n - 1)));
    }
}

/// The distance of a point to a box is its distance to the nearest point of
/// the box.
pub proof fn lemma_distance_to_nearest<P: Point>(e: AABB<P>, p: P, q: P, n: int)
    requires
        n <= dims::<P>(),
        forall|i: int| 0 <= i < dims::<P>() ==> #[trigger] coord(q, i) == nearest_coord(e, p, i),
    ensures
        distance_2_upto(q, p, n) == envelope_distance_2_upto(e, p, n),
    decreases n,
{
    if n > 0 {
        lemma_distance_to_nearest(e, p, q, n - 1);
        assert(coord(q, n - 1) == nearest_coord(e, p, n - 1));
    }
}


impl<P: Point> AABB<P> {
    /// The lower corner.
    pub closed spec fn lower_spec(&self) -> P {
        self.lower
    }

    /// The upper corner.
    pub closed spec fn upper_spec(&self) -> P {
        self.upper
    }

    /// The box with the corners `lower` and `upper`.
    pub closed spec fn corners(lower: P, upper: P) -> Self {
        AABB { lower, upper }
    }

    /// Two boxes with the same corners are the same box.
    pub proof fn lemma_corners(a: Self, b: Self)
        requires
            a.lower_spec() == b.lower_spec(),
            a.upper_spec() == b.upper_spec(),
        ensures
            a == b,
    {
    }

    /// The corners of [`corners`](Self::corners) are the ones given.
    pub proof fn lemma_corners_of(lower: P, upper: P)
        ensures
            Self::corners(lower, upper).lower_spec() == lower,
            Self::corners(lower, upper).upper_spec() == upper,
    {
    }

    /// The box that holds the single point `p`.
    pub fn from_point(p: P) -> (r: Self)
        ensures
            r.lower_spec() == p,
            r.upper_spec() == p,
            is_valid(r),
    {
        AABB { lower: p, upper: p }
    }

    /// The lower corner: the point of the box with the smallest coordinate on
    /// every axis.
    pub fn lower(&self) -> (r: P)
        ensures
            r == self.lower_spec(),
    {
        self.lower
    }

    /// The upper corner: the point of the box with the largest coordinate on
    /// every axis.
    pub fn upper(&self) -> (r: P)
        ensures
            r == self.upper_spec(),
    {
        self.upper
    }

    /// Whether the box holds a point: on no axis is its lower bound above its
    /// upper bound.
    pub fn holds_points(&self) -> (r: bool)
        ensures
            r == is_valid(*self),
    {
        let mut i: usize = 0;
        while i < P::DIMENSIONS
            invariant
                i <= P::DIMENSIONS,
                forall|k: int| 0 <= k < i ==> lo(*self, k) <= hi(*self, k),
            decreases P::DIMENSIONS - i,
        {
            if self.upper.nth(i).less(self.lower.nth(i)) {
                assert(lo(*self, i as int) > hi(*self, i as int));
                return false;
            }
            i = i + 1;
        }
        true
    }

    /// The box of the points that lie in both `self` and `other`: the larger
    /// of the lower bounds and the smaller of the upper bounds, on every
    /// axis. Where the two boxes share no point, the result holds none.
    pub fn intersection(&self, other: &Self) -> (r: Self)
        ensures
            forall|i: int|
                #![trigger lo(r, i)]
                #![trigger hi(r, i)]
                0 <= i < dims::<P>() ==> lo(r, i) == max_int(lo(*self, i), lo(*other, i)) && hi(r, i)
                    == min_int(hi(*self, i), hi(*other, i)),
    {
        let r = AABB { lower: self.lower.max_point(&other.lower), upper: self.upper.min_point(&other.upper) };
        assert forall|i: int|
            #![trigger lo(r, i)]
            #![trigger hi(r, i)]
            0 <= i < dims::<P>() implies lo(r, i) == max_int(lo(*self, i), lo(*other, i)) && hi(r, i)
            == min_int(hi(*self, i), hi(*other, i)) by {
            assert(r.lower.nth_spec(i) == if coord(self.lower, i) > coord(other.lower, i) {
                self.lower.nth_spec(i)
            } else {
                other.lower.nth_spec(i)
            });
            assert(r.upper.nth_spec(i) == if coord(self.upper, i) < coord(other.upper, i) {
                self.upper.nth_spec(i)
            } else {
                other.upper.nth_spec(i)
            });
        }
        r
    }

    /// The smallest box that holds `p1` and `p2`.
    pub fn from_corners(p1: P, p2: P) -> (r: Self)
        ensures
            forall|i: int|
#![trigger lo(r, i)]
#![trigger hi(r, i)]
0 <= i < dims::<P>() ==> lo(r, i) == min_int(coord(p1, i), coord(p2, i))
                    && hi(r, i) == max_int(coord(p1, i), coord(p2, i)),
            is_valid(r),
    {
        let r = AABB { lower: p1.min_point(&p2), upper: p1.max_point(&p2) };
        assert forall|i: int|
#![trigger lo(r, i)]
#![trigger hi(r, i)]
0 <= i < dims::<P>() implies lo(r, i) == min_int(
            coord(p1, i),
            coord(p2, i),
        ) && hi(r, i) == max_int(coord(p1, i), coord(p2, i)) by {
            assert(r.lower.nth_spec(i) == if coord(p1, i) < coord(p2, i) {
                p1.nth_spec(i)
            } else {
                p2.nth_spec(i)
            });
            assert(r.upper.nth_spec(i) == if coord(p1, i) > coord(p2, i) {
                p1.nth_spec(i)
            } else {
                p2.nth_spec(i)
            });
        }
        r
    }

    /// The smallest box that holds all of `points`; the empty envelope where
    /// there are none.
    pub fn from_points(points: &Vec<P>) -> (r: Self)
        ensures
            forall|i: int|
#![trigger lo(r, i)]
#![trigger hi(r, i)]
0 <= i < dims::<P>() ==> lo(r, i) == lowest_coord(points@, i)
                    && hi(r, i) == highest_coord(points@, i),
    {
        let mut r = new_empty::<P>();
        let mut k: usize = 0;
        while k < points.len()
            invariant
                k <= points.len(),
                forall|i: int|
#![trigger lo(r, i)]
#![trigger hi(r, i)]
0 <= i < dims::<P>() ==> lo(r, i) == lowest_coord(
                        points@.take(k as int),
                        i,
                    ) && hi(r, i) == highest_coord(points@.take(k as int), i),
            decreases points.len() - k,
        {
            let next = r.add_point(&points[k]);
            proof {
                assert(points@.take(k as int + 1).drop_last() =~= points@.take(k as int));
                assert forall|i: int|
#![trigger lo(next, i)]
#![trigger hi(next, i)]
0 <= i < dims::<P>() implies lo(next, i)
                    == lowest_coord(points@.take(k as int + 1), i) && hi(next, i)
                    == highest_coord(points@.take(k as int + 1), i) by {
                    assert(lo(r, i) == lowest_coord(points@.take(k as int), i));
                    assert(hi(r, i) == highest_coord(points@.take(k as int), i));
                }
            }
            r = next;
            k = k + 1;
        }
        assert(points@.take(k as int) =~= points@);
        r
    }

    /// The smallest box that holds `self` and `point`.
    fn add_point(&self, point: &P) -> (r: Self)
        ensures
            forall|i: int|
#![trigger lo(r, i)]
#![trigger hi(r, i)]
0 <= i < dims::<P>() ==> lo(r, i) == min_int(lo(*self, i), coord(*point, i))
                    && hi(r, i) == max_int(hi(*self, i), coord(*point, i)),
    {
        let r = AABB { lower: self.lower.min_point(point), upper: self.upper.max_point(point) };
        assert forall|i: int|
#![trigger lo(r, i)]
#![trigger hi(r, i)]
0 <= i < dims::<P>() implies lo(r, i) == min_int(
            lo(*self, i),
            coord(*point, i),
        ) && hi(r, i) == max_int(hi(*self, i), coord(*point, i)) by {
            assert(r.lower.nth_spec(i) == if coord(self.lower, i) < coord(*point, i) {
                self.lower.nth_spec(i)
            } else {
                point.nth_spec(i)
            });
            assert(r.upper.nth_spec(i) == if coord(self.upper, i) > coord(*point, i) {
                self.upper.nth_spec(i)
            } else {
                point.nth_spec(i)
            });
        }
        r
    }

    /// The point of the box nearest to `point`: `point` itself where the box
    /// holds it.
    pub fn min_point(&self, point: &P) -> (r: P)
        ensures
            forall|i: int|
                0 <= i < dims::<P>() ==> #[trigger] coord(r, i) == nearest_coord(*self, *point, i),
    {
        let inner = self.lower.max_point(point);
        let r = self.upper.min_point(&inner);
        assert forall|i: int| 0 <= i < dims::<P>() implies #[trigger] coord(r, i) == nearest_coord(
            *self,
            *point,
            i,
        ) by {
            assert(inner.nth_spec(i) == if coord(self.lower, i) > coord(*point, i) {
                self.lower.nth_spec(i)
            } else {
                point.nth_spec(i)
            });
            assert(r.nth_spec(i) == if coord(self.upper, i) < coord(inner, i) {
                self.upper.nth_spec(i)
            } else {
                inner.nth_spec(i)
            });
        }
        r
    }

    /// The squared distance of `point` to [`min_point`](Self::min_point),
    /// saturating; zero where the box holds the point.
    pub fn distance_2(&self, point: &P) -> (r: P::Scalar)
        ensures
            r.value() == saturate::<P::Scalar>(envelope_distance_2(*self, *point)),
    {
        let nearest = self.min_point(point);
        proof {
            lemma_distance_to_nearest(*self, *point, nearest, dims::<P>());
        }
        nearest.distance_2(point)
    }
}

/// The empty envelope of the point type `P`.
pub fn new_empty<P: Point>() -> (r: AABB<P>)
    ensures
        is_empty_envelope(r),
{
    let max = P::Scalar::max_value();
    let min = P::Scalar::min_value();
    let r = AABB { lower: P::from_value(max), upper: P::from_value(min) };
    assert forall|i: int| 0 <= i < dims::<P>() implies #[trigger] lo(r, i)
        == P::Scalar::upper_limit() && hi(r, i) == P::Scalar::lower_limit() by {
        assert(r.lower.nth_spec(i) == max);
        assert(r.upper.nth_spec(i) == min);
    }
    r
}

impl<P: Point> Envelope for AABB<P> {
    type Point = P;

    open spec fn bounds(&self) -> AABB<P> {
        *self
    }

    proof fn lemma_extensional(a: Self, b: Self) {
    }

    fn new_empty() -> (r: Self) {
        new_empty::<P>()
    }

    fn lower(&self) -> (r: P) {
        self.lower
    }

    fn upper(&self) -> (r: P) {
        self.upper
    }

    fn contains_point(&self, point: &P) -> (r: bool) {
        let mut i: usize = 0;
        while i < P::DIMENSIONS
            invariant
                i <= P::DIMENSIONS,
                forall|k: int|
                    #![trigger lo(*self, k)]
                    #![trigger hi(*self, k)]
                    #![trigger coord(*point, k)]
                    0 <= k < i ==> lo(*self, k) <= coord(*point, k) && coord(*point, k) <= hi(*self, k),
            decreases P::DIMENSIONS - i,
        {
            let c = point.nth(i);
            if !(self.lower.nth(i).less_eq(c) && c.less_eq(self.upper.nth(i))) {
                assert(!(lo(*self, i as int) <= coord(*point, i as int) <= hi(*self, i as int)));
                return false;
            }
            assert(lo(*self, i as int) == self.lower.nth_spec(i as int).value());
            assert(hi(*self, i as int) == self.upper.nth_spec(i as int).value());
            assert(lo(*self, i as int) <= coord(*point, i as int) <= hi(*self, i as int));
            i = i + 1;
        }
        true
    }

    fn contains_envelope(&self, other: &Self) -> (r: bool) {
        let mut i: usize = 0;
        while i < P::DIMENSIONS
            invariant
                i <= P::DIMENSIONS,
                forall|k: int|
#![trigger lo(*self, k)]
#![trigger hi(*self, k)]
0 <= k < i ==> lo(*self, k) <= lo(*other, k) && hi(*other, k)
                        <= hi(*self, k),
            decreases P::DIMENSIONS - i,
        {
            if !(self.lower.nth(i).less_eq(other.lower.nth(i)) && other.upper.nth(i).less_eq(
                self.upper.nth(i),
            )) {
                assert(!(lo(*self, i as int) <= lo(*other, i as int) && hi(*other, i as int) <= hi(
                    *self,
                    i as int,
                )));
                return false;
            }
            i = i + 1;
        }
        true
    }

    fn merge(&mut self, other: &Self) {
        let merged = self.merged(other);
        *self = merged;
    }

    fn merged(&self, other: &Self) -> (r: Self) {
        let r = AABB {
            lower: self.lower.min_point(&other.lower),
            upper: self.upper.max_point(&other.upper),
        };
        assert forall|i: int|
#![trigger lo(r, i)]
#![trigger hi(r, i)]
0 <= i < dims::<P>() implies lo(r, i) == min_int(
            lo(*self, i),
            lo(*other, i),
        ) && hi(r, i) == max_int(hi(*self, i), hi(*other, i)) by {
            assert(r.lower.nth_spec(i) == if coord(self.lower, i) < coord(other.lower, i) {
                self.lower.nth_spec(i)
            } else {
                other.lower.nth_spec(i)
            });
            assert(r.upper.nth_spec(i) == if coord(self.upper, i) > coord(other.upper, i) {
                self.upper.nth_spec(i)
            } else {
                other.upper.nth_spec(i)
            });
        }
        r
    }

    fn intersects(&self, other: &Self) -> (r: bool) {
        let mut i: usize = 0;
        while i < P::DIMENSIONS
            invariant
                i <= P::DIMENSIONS,
                forall|k: int|
#![trigger lo(*self, k)]
#![trigger hi(*self, k)]
0 <= k < i ==> lo(*self, k) <= hi(*other, k) && lo(*other, k)
                        <= hi(*self, k),
            decreases P::DIMENSIONS - i,
        {
            if !(self.lower.nth(i).less_eq(other.upper.nth(i)) && other.lower.nth(i).less_eq(
                self.upper.nth(i),
            )) {
                assert(!(lo(*self, i as int) <= hi(*other, i as int) && lo(*other, i as int) <= hi(
                    *self,
                    i as int,
                )));
                return false;
            }
            i = i + 1;
        }
        true
    }

    fn intersection_area(&self, other: &Self) -> (r: P::Scalar) {
        let clipped = AABB {
            lower: self.lower.max_point(&other.lower),
            upper: self.upper.min_point(&other.upper),
        };
        proof {
            assert forall|i: int|
#![trigger lo(clipped, i)]
#![trigger hi(clipped, i)]
0 <= i < dims::<P>() implies lo(clipped, i) == max_int(
                lo(*self, i),
                lo(*other, i),
            ) && hi(clipped, i) == min_int(hi(*self, i), hi(*other, i)) by {
                assert(clipped.lower.nth_spec(i) == if coord(self.lower, i) > coord(other.lower, i) {
                    self.lower.nth_spec(i)
                } else {
                    other.lower.nth_spec(i)
                });
                assert(clipped.upper.nth_spec(i) == if coord(self.upper, i) < coord(other.upper, i) {
                    self.upper.nth_spec(i)
                } else {
                    other.upper.nth_spec(i)
                });
            }
            lemma_clipped_area(clipped, *self, *other, dims::<P>());
        }
        clipped.area()
    }

    fn area(&self) -> (r: P::Scalar) {
        let zero = P::Scalar::zero();
        let mut acc = P::Scalar::one();
        let mut i: usize = 0;
        proof {
            P::Scalar::lemma_limits(acc);
        }
        while i < P::DIMENSIONS
            invariant
                i <= P::DIMENSIONS,
                zero.value() == 0,
                acc.value() == saturate::<P::Scalar>(area_upto(*self, i as int)),
            decreases P::DIMENSIONS - i,
        {
            let side = max_inline(self.upper.nth(i).sub(self.lower.nth(i)), zero);
            proof {
                P::Scalar::lemma_limits(side);
                lemma_area_nonnegative(*self, i as int);
                lemma_saturated_product::<P::Scalar>(
                    extent(*self, i as int),
                    area_upto(*self, i as int),
                    side,
                );
                assert(side.value() == saturate::<P::Scalar>(extent(*self, i as int)));
                assert(extent(*self, i as int) * area_upto(*self, i as int) == area_upto(
                    *self,
                    i as int,
                ) * extent(*self, i as int)) by (nonlinear_arith);
            }
            acc = side.mul(acc);
            i = i + 1;
        }
        acc
    }

    fn distance_2(&self, point: &P) -> (r: P::Scalar) {
        AABB::distance_2(self, point)
    }

    fn min_max_dist_2(&self, point: &P) -> (r: P::Scalar) {
        proof {
            P::lemma_dimensions();
        }
        let mut best = self.min_max_candidate(point, 0);
        let mut k: usize = 1;
        while k < P::DIMENSIONS
            invariant
                1 <= k <= P::DIMENSIONS,
                best.value() == saturate::<P::Scalar>(min_max_upto(*self, *point, k as int)),
            decreases P::DIMENSIONS - k,
        {
            let candidate = self.min_max_candidate(point, k);
            proof {
                P::Scalar::lemma_limits(candidate);
            }
            best = min_inline(candidate, best);
            k = k + 1;
        }
        best
    }

    fn center(&self) -> (r: P) {
        let f = |i: usize| -> (s: P::Scalar)
            requires
                i < P::DIMENSIONS,
            ensures
                s.value() == center_coord(*self, i as int),
            { self.lower.nth(i).midpoint(self.upper.nth(i)) };
        let r = P::generate(f);
        assert forall|i: int| 0 <= i < dims::<P>() implies #[trigger] coord(r, i) == center_coord(
            *self,
            i,
        ) by {
            assert(call_ensures(f, (i as usize,), r.nth_spec(i as usize as int)));
        }
        r
    }

    fn perimeter_value(&self) -> (r: P::Scalar) {
        let zero = P::Scalar::zero();
        let mut acc = P::Scalar::zero();
        let mut i: usize = 0;
        proof {
            P::Scalar::lemma_limits(acc);
        }
        while i < P::DIMENSIONS
            invariant
                i <= P::DIMENSIONS,
                zero.value() == 0,
                acc.value() == saturate::<P::Scalar>(perimeter_upto(*self, i as int)),
            decreases P::DIMENSIONS - i,
        {
            let side = max_inline(self.upper.nth(i).sub(self.lower.nth(i)), zero);
            proof {
                P::Scalar::lemma_limits(side);
                lemma_perimeter_nonnegative(*self, i as int);
                lemma_saturated_sum::<P::Scalar>(
                    perimeter_upto(*self, i as int),
                    extent(*self, i as int),
                    side,
                );
                assert(side.value() == saturate::<P::Scalar>(extent(*self, i as int)));
            }
            acc = acc.add(side);
            i = i + 1;
        }
        acc
    }
}

impl<P: Point> AABB<P> {
    /// The squared distance of `point` to the corner that is nearest on axis
    /// `k` and farthest on all others, saturating.
    fn min_max_candidate(&self, point: &P, k: usize) -> (r: P::Scalar)
        requires
            k < P::DIMENSIONS,
        ensures
            r.value() == saturate::<P::Scalar>(min_max_candidate(*self, *point, k as int)),
    {
        let mut acc = P::Scalar::zero();
        let mut i: usize = 0;
        proof {
            P::Scalar::lemma_limits(acc);
        }
        while i < P::DIMENSIONS
            invariant
                i <= P::DIMENSIONS,
                acc.value() == saturate::<P::Scalar>(
                    min_max_candidate_upto(*self, *point, k as int, i as int),
                ),
            decreases P::DIMENSIONS - i,
        {
            let c = point.nth(i);
            let l = self.lower.nth(i).sub(c);
            let u = self.upper.nth(i).sub(c);
            let ll = l.mul(l);
            let uu = u.mul(u);
            let term = if i == k {
                min_inline(ll, uu)
            } else {
                max_inline(ll, uu)
            };
            proof {
                let dl = lo(*self, i as int) - coord(*point, i as int);
                let du = hi(*self, i as int) - coord(*point, i as int);
                let prev = min_max_candidate_upto(*self, *point, k as int, i as int);
                lemma_candidate_nonnegative(*self, *point, k as int, i as int);
                lemma_saturated_square_sum::<P::Scalar>(dl, 0, c);
                lemma_saturated_square_sum::<P::Scalar>(du, 0, c);
                lemma_square_nonnegative(dl);
                lemma_square_nonnegative(du);
                P::Scalar::lemma_limits(c);
                assert(ll.value() == saturate::<P::Scalar>(dl * dl));
                assert(uu.value() == saturate::<P::Scalar>(du * du));
                let t = if i == k {
                    near_square(*self, *point, i as int)
                } else {
                    far_square(*self, *point, i as int)
                };
                assert(term.value() == saturate::<P::Scalar>(t));
                lemma_saturated_sum::<P::Scalar>(prev, t, c);
            }
            acc = acc.add(term);
            i = i + 1;
        }
        acc
    }
}

} // verus!
