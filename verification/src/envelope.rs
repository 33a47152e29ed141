//! Envelopes: the axis-aligned boxes by which the tree prunes its searches.
//!
//! The contracts of an envelope's operations are stated over the integer
//! values of its corner coordinates.

use crate::aabb::{
    center_coord, dims, envelope_area, envelope_contains, envelope_contains_point,
    envelope_distance_2, envelope_min_max_dist_2, envelope_perimeter, envelopes_intersect,
    intersection_area, is_empty_envelope, is_merged, AABB,
};
use crate::num::{saturate, RTreeNum};
use crate::point::{coord, Point};
use vstd::prelude::*;

verus! {

/// An axis-aligned box given by its lower and upper corner.
///
/// A box in which a lower coordinate exceeds the upper one on some axis holds
/// no point. The *empty* envelope is the one whose lower corner has the
/// largest number on every axis and whose upper corner the smallest: merging
/// it with any envelope gives that envelope.
pub trait Envelope: Copy + Sized {
    /// The point type of the corners.
    type Point: Point;

    /// The box that the envelope is.
    spec fn bounds(&self) -> AABB<Self::Point>;

    /// Two envelopes that are the same box are the same envelope.
    proof fn lemma_extensional(a: Self, b: Self)
        requires
            a.bounds() == b.bounds(),
        ensures
            a == b,
    ;

    /// The empty envelope.
    fn new_empty() -> (r: Self)
        ensures
            is_empty_envelope(r.bounds()),
    ;

    /// The lower corner.
    fn lower(&self) -> (r: Self::Point)
        ensures
            r == self.bounds().lower_spec(),
    ;

    /// The upper corner.
    fn upper(&self) -> (r: Self::Point)
        ensures
            r == self.bounds().upper_spec(),
    ;

    /// Whether `point` lies in the envelope, its border included.
    fn contains_point(&self, point: &Self::Point) -> (r: bool)
        ensures
            r == envelope_contains_point(self.bounds(), *point),
    ;

    /// Whether `other` lies in the envelope.
    fn contains_envelope(&self, other: &Self) -> (r: bool)
        ensures
            r == envelope_contains(self.bounds(), other.bounds()),
    ;

    /// Extends the envelope so that it contains `other`.
    fn merge(&mut self, other: &Self)
        ensures
            is_merged(final(self).bounds(), old(self).bounds(), other.bounds()),
    ;

    /// The smallest envelope that contains `self` and `other`.
    fn merged(&self, other: &Self) -> (r: Self)
        ensures
            is_merged(r.bounds(), self.bounds(), other.bounds()),
    ;

    /// Whether the envelope and `other` have a point in common. Touching counts.
    fn intersects(&self, other: &Self) -> (r: bool)
        ensures
            r == envelopes_intersect(self.bounds(), other.bounds()),
    ;

    /// The area of the part that the envelope shares with `other`, saturating.
    fn intersection_area(&self, other: &Self) -> (r: <Self::Point as Point>::Scalar)
        ensures
            r.value() == saturate::<<Self::Point as Point>::Scalar>(intersection_area(self.bounds(), other.bounds())),
    ;

    /// The area: the product of the extents, saturating.
    fn area(&self) -> (r: <Self::Point as Point>::Scalar)
        ensures
            r.value() == saturate::<<Self::Point as Point>::Scalar>(envelope_area(self.bounds())),
    ;

    /// The squared distance of `point` to the nearest point of the envelope,
    /// saturating.
    fn distance_2(&self, point: &Self::Point) -> (r: <Self::Point as Point>::Scalar)
        ensures
            r.value() == saturate::<<Self::Point as Point>::Scalar>(
                envelope_distance_2(self.bounds(), *point),
            ),
    ;

    /// The squared min-max distance of `point`: the smallest, over the axes, of
    /// the squared distance to the far end of the near face. Saturating.
    fn min_max_dist_2(&self, point: &Self::Point) -> (r: <Self::Point as Point>::Scalar)
        ensures
            r.value() == saturate::<<Self::Point as Point>::Scalar>(
                envelope_min_max_dist_2(self.bounds(), *point),
            ),
    ;

    /// The center: on every axis the mean of the two corners, rounded towards
    /// zero.
    fn center(&self) -> (r: Self::Point)
        ensures
            forall|i: int|
                0 <= i < dims::<Self::Point>() ==> #[trigger] coord(r, i) == center_coord(self.bounds(), i),
    ;

    /// The sum of the extents, saturating.
    fn perimeter_value(&self) -> (r: <Self::Point as Point>::Scalar)
        ensures
            r.value() == saturate::<<Self::Point as Point>::Scalar>(envelope_perimeter(self.bounds())),
    ;
}

} // verus!
