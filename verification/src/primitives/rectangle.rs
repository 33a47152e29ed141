//! Rectangles.

use crate::aabb::{
    dims, envelope_contains_point, envelope_distance_2, is_valid, nearest_coord, AABB,
};
use crate::envelope::Envelope;
use crate::num::{saturate, RTreeNum};
use crate::object::{PointDistance, RTreeObject};
use crate::point::{coord, Point};
use vstd::prelude::*;
use vstd::std_specs::cmp::PartialEqSpecImpl;

verus! {

/// An n-dimensional rectangle given by its two corners.
#[derive(Debug, Eq)]
pub struct Rectangle<P: Point> {
    aabb: AABB<P>,
}

impl<P: Point> PartialEq for Rectangle<P> {
    /// Whether the two rectangles have the same corners.
    fn eq(&self, other: &Self) -> (r: bool) {
        self.aabb == other.aabb
    }
}

impl<P: Point> PartialEqSpecImpl for Rectangle<P> {
    open spec fn obeys_eq_spec() -> bool {
        true
    }

    open spec fn eq_spec(&self, other: &Self) -> bool {
        *self == *other
    }
}

impl<P: Point> Clone for Rectangle<P> {
    fn clone(&self) -> (r: Self)
        ensures
            r == *self,
    {
        proof {
            use_type_invariant(self);
        }
        Rectangle { aabb: self.aabb }
    }
}

impl<P: Point> Copy for Rectangle<P> {

}

impl<P: Point> Rectangle<P> {
    /// What holds of every rectangle: its box holds something.
    #[verifier::type_invariant]
    pub closed spec fn inv(&self) -> bool {
        is_valid(self.aabb)
    }

    /// The box of the rectangle.
    pub closed spec fn aabb_spec(&self) -> AABB<P> {
        self.aabb
    }

    /// The rectangle between two corners.
    pub fn from_corners(corner_1: P, corner_2: P) -> (r: Self)
        ensures
            r.inv(),
            forall|i: int|
                #![trigger crate::aabb::lo(r.aabb_spec(), i)]
                #![trigger crate::aabb::hi(r.aabb_spec(), i)]
                0 <= i < dims::<P>() ==> crate::aabb::lo(r.aabb_spec(), i) == crate::aabb::min_int(
                    coord(corner_1, i),
                    coord(corner_2, i),
                ) && crate::aabb::hi(r.aabb_spec(), i) == crate::aabb::max_int(
                    coord(corner_1, i),
                    coord(corner_2, i),
                ),
    {
        Rectangle { aabb: AABB::from_corners(corner_1, corner_2) }
    }

    /// The rectangle that is the box `aabb`: its corners are taken as they
    /// are.
    ///
    /// A rectangle holds at least a point, as every object of a tree does:
    /// the box must hold one, which [`AABB::holds_points`] tells.
    pub fn from_aabb(aabb: AABB<P>) -> (r: Self)
        requires
            is_valid(aabb),
        ensures
            r.inv(),
            r.aabb_spec() == aabb,
            r.envelope_spec() == aabb,
    {
        Rectangle { aabb }
    }

    /// The lower corner.
    pub fn lower(&self) -> (r: P)
        ensures
            r == self.aabb_spec().lower_spec(),
    {
        self.aabb.lower()
    }

    /// The upper corner.
    pub fn upper(&self) -> (r: P)
        ensures
            r == self.aabb_spec().upper_spec(),
    {
        self.aabb.upper()
    }

    /// The point of the rectangle nearest to `query_point`.
    pub fn nearest_point(&self, query_point: &P) -> (r: P)
        ensures
            forall|i: int|
                0 <= i < dims::<P>() ==> #[trigger] coord(r, i) == nearest_coord(
                    self.aabb_spec(),
                    *query_point,
                    i,
                ),
    {
        self.aabb.min_point(query_point)
    }
}

impl<P: Point> RTreeObject for Rectangle<P> {
    type Envelope = AABB<P>;

    open spec fn envelope_spec(&self) -> AABB<P> {
        if is_valid(self.aabb_spec()) {
            self.aabb_spec()
        } else {
            crate::object::point_envelope(self.aabb_spec().lower_spec())
        }
    }

    proof fn lemma_envelope_valid(&self) {
        crate::object::lemma_point_envelope(self.aabb_spec().lower_spec());
    }

    fn envelope(&self) -> (r: AABB<P>) {
        proof {
            use_type_invariant(self);
        }
        self.aabb
    }
}

impl<P: Point> PointDistance for Rectangle<P> {
    open spec fn distance_2_spec(&self, point: P) -> int {
        saturate::<P::Scalar>(envelope_distance_2(self.envelope_spec(), point))
    }

    open spec fn contains_point_spec(&self, point: P) -> bool {
        envelope_contains_point(self.envelope_spec(), point)
    }

    proof fn lemma_envelope_is_nearer(&self, point: P) {
    }

    proof fn lemma_min_max_is_farther(&self, point: P) {
        self.lemma_envelope_valid();
        crate::aabb::lemma_distance_below_min_max(self.envelope_spec(), point);
        let witness: P::Scalar = arbitrary();
        P::Scalar::lemma_limits(witness);
    }

    proof fn lemma_envelope_holds_points(&self, point: P) {
    }

    fn distance_2(&self, point: &P) -> (r: P::Scalar) {
        proof {
            use_type_invariant(self);
        }
        self.aabb.distance_2(point)
    }

    fn contains_point(&self, point: &P) -> (r: bool) {
        proof {
            use_type_invariant(self);
        }
        self.aabb.contains_point(point)
    }

    fn distance_2_if_less_or_equal(&self, point: &P, max_distance_2: P::Scalar) -> (r: Option<
        P::Scalar,
    >) {
        let distance_2 = self.distance_2(point);
        if distance_2.less_eq(max_distance_2) {
            Some(distance_2)
        } else {
            None
        }
    }
}

} // verus!
