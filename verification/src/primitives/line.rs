//! Line segments.

use crate::aabb::{
    dims, envelope_distance_2, envelope_distance_2_upto, hi, is_valid, lo,
    max_int, min_int, min_max_candidate_upto, nearest_coord, AABB,
};
use crate::envelope::Envelope;
use crate::num::{max_inline, min_inline, saturate, trunc_div, RTreeNum};
use crate::object::{PointDistance, RTreeObject};
use crate::point::{coord, distance_2_upto, dot_upto, point_distance_2, Point, PointExt};
use vstd::prelude::*;
use vstd::std_specs::cmp::PartialEqSpecImpl;

verus! {

/// A line segment between two points.
#[derive(Clone, Copy, Debug, Eq)]
pub struct Line<P: Point> {
    /// Where the line starts.
    pub from: P,
    /// Where the line ends.
    pub to: P,
}

impl<P: Point> PartialEq for Line<P> {
    /// Whether the two lines have the same start and the same end.
    fn eq(&self, other: &Self) -> (r: bool) {
        crate::point::points_equal(&self.from, &other.from) && crate::point::points_equal(
            &self.to,
            &other.to,
        )
    }
}

impl<P: Point> PartialEqSpecImpl for Line<P> {
    open spec fn obeys_eq_spec() -> bool {
        true
    }

    open spec fn eq_spec(&self, other: &Self) -> bool {
        *self == *other
    }
}

/// The older name of [`Line`].
pub type SimpleEdge<P> = Line<P>;

/// The smallest box that holds `p1` and `p2`.
pub closed spec fn corners_envelope<P: Point>(p1: P, p2: P) -> AABB<P> {
    if exists|e: AABB<P>| is_corners_envelope(e, p1, p2) {
        choose|e: AABB<P>| is_corners_envelope(e, p1, p2)
    } else {
        crate::object::point_envelope(p1)
    }
}

/// `e` is the smallest box that holds `p1` and `p2`.
pub open spec fn is_corners_envelope<P: Point>(e: AABB<P>, p1: P, p2: P) -> bool {
    forall|i: int|
        #![trigger lo(e, i)]
        #![trigger hi(e, i)]
        0 <= i < dims::<P>() ==> lo(e, i) == min_int(coord(p1, i), coord(p2, i)) && hi(e, i)
            == max_int(coord(p1, i), coord(p2, i))
}

impl<P: Point> Line<P> {
    /// The line from `from` to `to`.
    pub fn new(from: P, to: P) -> (r: Self)
        ensures
            r.from == from,
            r.to == to,
    {
        Line { from, to }
    }

    /// The squared length of the line, saturating.
    pub fn length_2(&self) -> (r: P::Scalar)
        ensures
            r.value() == saturate::<P::Scalar>(point_distance_2(self.from, self.to)),
    {
        PointExt::distance_2(&self.from, &self.to)
    }
}

impl<P: Point> RTreeObject for Line<P> {
    type Envelope = AABB<P>;

    open spec fn envelope_spec(&self) -> AABB<P> {
        corners_envelope(self.from, self.to)
    }

    proof fn lemma_envelope_valid(&self) {
        let e = corners_envelope(self.from, self.to);
        if exists|e: AABB<P>| is_corners_envelope(e, self.from, self.to) {
            assert(is_corners_envelope(e, self.from, self.to));
            assert forall|i: int|
                #![trigger lo(e, i)]
                #![trigger hi(e, i)]
                0 <= i < dims::<P>() implies lo(e, i) <= hi(e, i) by {
                assert(lo(e, i) == min_int(coord(self.from, i), coord(self.to, i)));
            }
        } else {
            crate::object::lemma_point_envelope(self.from);
        }
    }

    fn envelope(&self) -> (r: AABB<P>) {
        let r = AABB::from_corners(self.from, self.to);
        proof {
            assert(is_corners_envelope(r, self.from, self.to));
            let e = corners_envelope(self.from, self.to);
            assert(is_corners_envelope(e, self.from, self.to));
            assert(crate::aabb::same_bounds(r, e)) by {
                assert forall|i: int|
                    #![trigger lo(r, i)]
                    #![trigger hi(r, i)]
                    0 <= i < dims::<P>() implies lo(r, i) == lo(e, i) && hi(r, i) == hi(e, i) by {
                    assert(lo(e, i) == min_int(coord(self.from, i), coord(self.to, i)));
                }
            }
            crate::aabb::lemma_same_bounds(r, e);
        }
        r
    }
}

/// On axis `i`, the saturating difference of `a` and `b`.
pub open spec fn gap<P: Point>(a: P, b: P, i: int) -> int {
    saturate::<P::Scalar>(coord(a, i) - coord(b, i))
}

/// The dot product of the differences `a - b` and `c - e` over the first `n`
/// axes, each step saturating.
pub open spec fn gap_product<P: Point>(a: P, b: P, c: P, e: P, n: int) -> int
    decreases n,
{
    if n <= 0 {
        0
    } else {
        saturate::<P::Scalar>(
            gap_product(a, b, c, e, n - 1) + saturate::<P::Scalar>(
                gap(a, b, n - 1) * gap(c, e, n - 1),
            ),
        )
    }
}

/// The quotient of `x` by `y`, rounded up, for `x` that is not negative and
/// `y` that is positive.
pub open spec fn quotient_up(x: int, y: int) -> int {
    if trunc_div(x, y) * y < x {
        trunc_div(x, y) + 1
    } else {
        trunc_div(x, y)
    }
}

/// The squared distance of `p` to the nearest point of the line from `from`
/// to `to`, rounded down, with every step of the computation saturating.
///
/// Where `p` lies before the start of the line or behind its end, this is the
/// distance to that end. In between it is the squared length of `p - from`
/// less the squared length of its projection onto the line.
pub open spec fn line_estimate<P: Point>(from: P, to: P, p: P) -> int {
    let along = gap_product(p, from, to, from, dims::<P>());
    let length = gap_product(to, from, to, from, dims::<P>());
    if along <= 0 {
        saturate::<P::Scalar>(point_distance_2(from, p))
    } else if along >= length {
        saturate::<P::Scalar>(point_distance_2(to, p))
    } else {
        saturate::<P::Scalar>(
            gap_product(p, from, p, from, dims::<P>()) - quotient_up(
                saturate::<P::Scalar>(along * along),
                length,
            ),
        )
    }
}

/// The squared distance of `p` to the line from `from` to `to`: the
/// estimate, kept between the distance of `p` to the envelope of the line
/// and its distance to the nearer end, which bound the distance whatever
/// the saturation does.
pub open spec fn line_distance_2<P: Point>(from: P, to: P, p: P) -> int {
    max_int(
        saturate::<P::Scalar>(envelope_distance_2(corners_envelope(from, to), p)),
        min_int(
            line_estimate(from, to, p),
            min_int(
                saturate::<P::Scalar>(point_distance_2(from, p)),
                saturate::<P::Scalar>(point_distance_2(to, p)),
            ),
        ),
    )
}

/// The dot product of two points whose coordinates are differences is the
/// dot product of the differences.
pub proof fn lemma_gap_product<P: Point>(w: P, d: P, a: P, b: P, c: P, e: P, n: int)
    requires
        n <= dims::<P>(),
        forall|i: int| 0 <= i < dims::<P>() ==> #[trigger] coord(w, i) == gap(a, b, i),
        forall|i: int| 0 <= i < dims::<P>() ==> #[trigger] coord(d, i) == gap(c, e, i),
    ensures
        dot_upto(w, d, n) == gap_product(a, b, c, e, n),
    decreases n,
{
    if n > 0 {
        lemma_gap_product(w, d, a, b, c, e, n - 1);
        assert(coord(w, n - 1) == gap(a, b, n - 1));
        assert(coord(d, n - 1) == gap(c, e, n - 1));
    }
}

/// A point at distance zero from a box lies in the box.
pub proof fn lemma_zero_distance_inside<P: Point>(e: AABB<P>, p: P, n: int)
    requires
        0 <= n <= dims::<P>(),
        is_valid(e),
        envelope_distance_2_upto(e, p, n) <= 0,
    ensures
        forall|i: int| 0 <= i < n ==> lo(e, i) <= #[trigger] coord(p, i) <= hi(e, i),
    decreases n,
{
    if n > 0 {
        let i = n - 1;
        let gap = nearest_coord(e, p, i) - coord(p, i);
        crate::point::lemma_square_nonnegative(gap);
        lemma_envelope_distance_nonnegative(e, p, n - 1);
        assert(gap * gap == 0);
        assert(gap == 0) by (nonlinear_arith)
            requires
                gap * gap == 0,
        ;
        assert(lo(e, i) <= hi(e, i));
        lemma_zero_distance_inside(e, p, n - 1);
    }
}

/// The distance of a point to a box is not negative.
pub proof fn lemma_envelope_distance_nonnegative<P: Point>(e: AABB<P>, p: P, n: int)
    ensures
        envelope_distance_2_upto(e, p, n) >= 0,
    decreases n,
{
    if n > 0 {
        lemma_envelope_distance_nonnegative(e, p, n - 1);
        crate::point::lemma_square_nonnegative(nearest_coord(e, p, n - 1) - coord(p, n - 1));
    }
}

/// The end of the line that lies on the face of the box `e` that is nearer
/// to `p` on axis `k`.
pub open spec fn near_end<P: Point>(e: AABB<P>, from: P, to: P, p: P, k: int) -> P {
    let low = (lo(e, k) - coord(p, k)) * (lo(e, k) - coord(p, k)) <= (hi(e, k) - coord(p, k)) * (hi(
        e,
        k,
    ) - coord(p, k));
    if low == (coord(from, k) <= coord(to, k)) {
        from
    } else {
        to
    }
}

/// A point is no farther from the end of a line on the nearer face of its
/// envelope than from the corner that the min-max distance measures.
pub proof fn lemma_end_reaches<P: Point>(e: AABB<P>, from: P, to: P, p: P, k: int, n: int)
    requires
        0 <= k < dims::<P>(),
        n <= dims::<P>(),
        is_corners_envelope(e, from, to),
    ensures
        distance_2_upto(near_end(e, from, to, p, k), p, n) <= min_max_candidate_upto(e, p, k, n),
    decreases n,
{
    if n > 0 {
        lemma_end_reaches(e, from, to, p, k, n - 1);
        let end = near_end(e, from, to, p, k);
        let i = n - 1;
        assert(lo(e, i) == min_int(coord(from, i), coord(to, i)));
        assert(hi(e, i) == max_int(coord(from, i), coord(to, i)));
        assert(lo(e, k) == min_int(coord(from, k), coord(to, k)));
        assert(hi(e, k) == max_int(coord(from, k), coord(to, k)));
        assert(coord(end, i) == lo(e, i) || coord(end, i) == hi(e, i));
    }
}

impl<P: Point> PointDistance for Line<P> {
    open spec fn distance_2_spec(&self, point: P) -> int {
        line_distance_2(self.from, self.to, point)
    }

    open spec fn contains_point_spec(&self, point: P) -> bool {
        line_distance_2(self.from, self.to, point) <= 0
    }

    proof fn lemma_envelope_is_nearer(&self, point: P) {
        let e = corners_envelope(self.from, self.to);
        assert(e.bounds() == e);
    }

    proof fn lemma_min_max_is_farther(&self, point: P) {
        let e = corners_envelope(self.from, self.to);
        assert(e.bounds() == e);
        let witness: P::Scalar = arbitrary();
        P::Scalar::lemma_limits(witness);
        P::lemma_dimensions();
        self.lemma_envelope_valid();
        crate::aabb::lemma_distance_below_min_max(e, point);
        let k = crate::aabb::lemma_min_max_attained(e, point, dims::<P>());
        if is_corners_envelope(e, self.from, self.to) {
            lemma_end_reaches(e, self.from, self.to, point, k, dims::<P>());
        } else {
            crate::object::lemma_point_candidate(self.from, point, k, dims::<P>());
        }
    }

    proof fn lemma_envelope_holds_points(&self, point: P) {
        let e = corners_envelope(self.from, self.to);
        assert(e.bounds() == e);
        let witness: P::Scalar = arbitrary();
        P::Scalar::lemma_limits(witness);
        self.lemma_envelope_valid();
        lemma_envelope_distance_nonnegative(e, point, dims::<P>());
        lemma_zero_distance_inside(e, point, dims::<P>());
    }

    fn distance_2(&self, point: &P) -> (r: P::Scalar) {
        let zero = P::Scalar::zero();
        let to_from = PointExt::distance_2(&self.from, point);
        let to_to = PointExt::distance_2(&self.to, point);
        let upper = min_inline(to_from, to_to);
        let lower = Envelope::distance_2(&self.envelope(), point);
        let w = PointExt::sub(point, &self.from);
        let d = PointExt::sub(&self.to, &self.from);
        let along = w.dot(&d);
        let length = d.dot(&d);
        proof {
            lemma_gap_product(w, d, *point, self.from, self.to, self.from, dims::<P>());
            lemma_gap_product(d, d, self.to, self.from, self.to, self.from, dims::<P>());
            lemma_gap_product(w, w, *point, self.from, *point, self.from, dims::<P>());
            P::Scalar::lemma_limits(zero);
        }
        let estimate = if along.less_eq(zero) {
            to_from
        } else if length.less_eq(along) {
            to_to
        } else {
            let within = w.dot(&w);
            let square = along.mul(along);
            let quotient = square.div(length);
            proof {
                let x = square.value();
                let y = length.value();
                P::Scalar::lemma_limits(square);
                assert(along.value() * along.value() >= 0) by (nonlinear_arith);
                assert(0 <= x / y <= x && 0 <= (x / y) * y <= x) by (nonlinear_arith)
                    requires
                        x >= 0,
                        y >= 1,
                ;
                let q = x / y;
                assert(q * y < x ==> q < x) by (nonlinear_arith)
                    requires
                        q >= 0,
                        y >= 1,
                ;
                assert(quotient.value() == q);
                P::Scalar::lemma_limits(quotient);
            }
            let rounded = if quotient.mul(length).less(square) {
                quotient.add(P::Scalar::one())
            } else {
                quotient
            };
            proof {
                assert(quotient.value() == trunc_div(square.value(), length.value()));
                assert(rounded.value() == quotient_up(square.value(), length.value()));
            }
            within.sub(rounded)
        };
        proof {
            let e = corners_envelope(self.from, self.to);
            assert(e.bounds() == e);
            assert(along.value() == gap_product(*point, self.from, self.to, self.from, dims::<P>()));
            assert(length.value() == gap_product(self.to, self.from, self.to, self.from, dims::<P>()));
            assert(estimate.value() == line_estimate(self.from, self.to, *point));
            assert(lower.value() == saturate::<P::Scalar>(envelope_distance_2(e, *point)));
        }
        max_inline(lower, min_inline(estimate, upper))
    }

    fn contains_point(&self, point: &P) -> (r: bool) {
        self.distance_2(point).less_eq(P::Scalar::zero())
    }
}

} // verus!
