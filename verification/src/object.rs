//! What the tree stores: objects with an envelope, and objects that know
//! their distance to a point.

use crate::aabb::{
    dims, envelope_contains_point, envelope_distance_2, envelope_min_max_dist_2, hi, is_valid,
    lemma_distance_to_nearest, lo, nearest_coord, AABB,
};
use crate::envelope::Envelope;
use crate::num::{saturate, RTreeNum};
use crate::point::{coord, lemma_same_point, point_distance_2, same_point, Point, PointExt};
use vstd::prelude::*;

verus! {

/// An object that can be inserted into the tree.
///
/// The tree sees of an object only its envelope, which must not change while
/// the object is in a tree.
pub trait RTreeObject: Sized {
    /// The envelope type; it fixes the dimension and the number type.
    type Envelope: Envelope;

    /// The envelope of the object.
    spec fn envelope_spec(&self) -> Self::Envelope;

    /// The envelope of an object is a box that holds something.
    proof fn lemma_envelope_valid(&self)
        ensures
            is_valid(self.envelope_spec().bounds()),
    ;

    /// The envelope of the object.
    fn envelope(&self) -> (r: Self::Envelope)
        ensures
            r == self.envelope_spec(),
    ;
}

/// An object that can tell its squared distance to a point.
pub trait PointDistance: RTreeObject {
    /// The squared distance of the object to `point`: a number of the
    /// coordinate type, as its value.
    spec fn distance_2_spec(&self, point: <Self::Envelope as Envelope>::Point) -> int;

    /// Whether the object holds `point`.
    spec fn contains_point_spec(&self, point: <Self::Envelope as Envelope>::Point) -> bool;

    /// An object is at least as far from a point as its envelope is.
    proof fn lemma_envelope_is_nearer(&self, point: <Self::Envelope as Envelope>::Point)
        ensures
            saturate::<<<Self::Envelope as Envelope>::Point as Point>::Scalar>(
                envelope_distance_2(self.envelope_spec().bounds(), point),
            ) <= self.distance_2_spec(point),
    ;

    /// An object is no farther from a point than the min-max distance of its
    /// envelope: it reaches every face of its envelope.
    proof fn lemma_min_max_is_farther(&self, point: <Self::Envelope as Envelope>::Point)
        ensures
            self.distance_2_spec(point) <= saturate::<
                <<Self::Envelope as Envelope>::Point as Point>::Scalar,
            >(envelope_min_max_dist_2(self.envelope_spec().bounds(), point)),
    ;

    /// The points that an object holds lie in its envelope.
    proof fn lemma_envelope_holds_points(&self, point: <Self::Envelope as Envelope>::Point)
        requires
            self.contains_point_spec(point),
        ensures
            envelope_contains_point(self.envelope_spec().bounds(), point),
    ;

    /// The squared euclidean distance of the object to `point`.
    fn distance_2(&self, point: &<Self::Envelope as Envelope>::Point) -> (r: <<Self::Envelope as Envelope>::Point as Point>::Scalar)
        ensures
            r.value() == self.distance_2_spec(*point),
    ;

    /// Whether the object holds `point`.
    fn contains_point(&self, point: &<Self::Envelope as Envelope>::Point) -> (r: bool)
        ensures
            r == self.contains_point_spec(*point),
    ;

    /// The squared distance to `point` where it is at most `max_distance_2`.
    ///
    /// The distance to the envelope is computed first: where it is too large
    /// already, the object's own distance is not asked for.
    fn distance_2_if_less_or_equal(
        &self,
        point: &<Self::Envelope as Envelope>::Point,
        max_distance_2: <<Self::Envelope as Envelope>::Point as Point>::Scalar,
    ) -> (r: Option<<<Self::Envelope as Envelope>::Point as Point>::Scalar>)
        ensures
            r is Some <==> self.distance_2_spec(*point) <= max_distance_2.value(),
            r is Some ==> r->0.value() == self.distance_2_spec(*point),
    {
        let envelope_distance = self.envelope().distance_2(point);
        proof {
            self.lemma_envelope_is_nearer(*point);
        }
        if envelope_distance.less_eq(max_distance_2) {
            let distance_2 = self.distance_2(point);
            if distance_2.less_eq(max_distance_2) {
                return Some(distance_2);
            }
        }
        None
    }
}

impl<P: Point> RTreeObject for P {
    type Envelope = AABB<P>;

    open spec fn envelope_spec(&self) -> AABB<P> {
        point_envelope(*self)
    }

    proof fn lemma_envelope_valid(&self) {
        lemma_point_envelope(*self);
        assert(self.envelope_spec() == point_envelope(*self));
        assert(point_envelope(*self).bounds() == point_envelope(*self));
        assert(is_valid(point_envelope(*self)));
    }

    fn envelope(&self) -> (r: AABB<P>) {
        let r = AABB::from_point(*self);
        proof {
            lemma_point_envelope(*self);
            AABB::lemma_corners(r, point_envelope(*self));
        }
        r
    }
}

/// The box that holds the single point `p`.
pub open spec fn point_envelope<P: Point>(p: P) -> AABB<P> {
    AABB::corners(p, p)
}

/// The envelope of a point has the point as both of its corners.
pub proof fn lemma_point_envelope<P: Point>(p: P)
    ensures
        point_envelope(p).lower_spec() == p,
        point_envelope(p).upper_spec() == p,
        is_valid(point_envelope(p)),
{
    AABB::lemma_corners_of(p, p);
    let e = point_envelope(p);
    assert forall|i: int| 0 <= i < dims::<P>() implies #[trigger] lo(e, i) <= hi(e, i) by {}
}

/// The distance of a point to every corner of the envelope of a point is the
/// distance of the two points.
pub proof fn lemma_point_candidate<P: Point>(p: P, q: P, k: int, n: int)
    requires
        n <= dims::<P>(),
    ensures
        crate::aabb::min_max_candidate_upto(point_envelope(p), q, k, n)
            == crate::point::distance_2_upto(p, q, n),
    decreases n,
{
    lemma_point_envelope(p);
    if n > 0 {
        lemma_point_candidate(p, q, k, n - 1);
        let e = point_envelope(p);
        assert(lo(e, n - 1) == coord(p, n - 1));
        assert(hi(e, n - 1) == coord(p, n - 1));
    }
}

impl<P: Point> PointDistance for P {
    open spec fn distance_2_spec(&self, point: P) -> int {
        saturate::<P::Scalar>(point_distance_2(*self, point))
    }

    open spec fn contains_point_spec(&self, point: P) -> bool {
        *self == point
    }

    proof fn lemma_envelope_is_nearer(&self, point: P) {
        lemma_point_envelope(*self);
        let e = point_envelope(*self);
        assert forall|i: int| 0 <= i < dims::<P>() implies #[trigger] coord(*self, i)
            == nearest_coord(e, point, i) by {
            assert(lo(e, i) == coord(*self, i));
            assert(hi(e, i) == coord(*self, i));
        }
        lemma_distance_to_nearest(e, point, *self, dims::<P>());
    }

    proof fn lemma_min_max_is_farther(&self, point: P) {
        lemma_point_envelope(*self);
        P::lemma_dimensions();
        let e = point_envelope(*self);
        let k = crate::aabb::lemma_min_max_attained(e, point, dims::<P>());
        lemma_point_candidate(*self, point, k, dims::<P>());
    }

    proof fn lemma_envelope_holds_points(&self, point: P) {
        lemma_point_envelope(*self);
        let e = point_envelope(*self);
        assert forall|i: int| 0 <= i < dims::<P>() implies lo(e, i) <= #[trigger] coord(point, i)
            <= hi(e, i) by {
            assert(lo(e, i) == coord(*self, i));
            assert(hi(e, i) == coord(*self, i));
        }
    }

    fn distance_2(&self, point: &P) -> (r: P::Scalar) {
        PointExt::distance_2(self, point)
    }

    fn contains_point(&self, point: &P) -> (r: bool) {
        let mut i: usize = 0;
        while i < P::DIMENSIONS
            invariant
                i <= P::DIMENSIONS,
                forall|k: int| 0 <= k < i ==> #[trigger] coord(*self, k) == coord(*point, k),
            decreases P::DIMENSIONS - i,
        {
            if self.nth(i).to_i64() != point.nth(i).to_i64() {
                assert(coord(*self, i as int) != coord(*point, i as int));
                return false;
            }
            i = i + 1;
        }
        proof {
            assert(same_point(*self, *point));
            lemma_same_point(*self, *point);
        }
        true
    }

    fn distance_2_if_less_or_equal(&self, point: &P, max_distance_2: P::Scalar) -> (r: Option<
        P::Scalar,
    >) {
        let distance_2 = PointExt::distance_2(self, point);
        if distance_2.less_eq(max_distance_2) {
            Some(distance_2)
        } else {
            None
        }
    }
}

} // verus!
