//! Rectangles that carry data.

use crate::aabb::{dims, is_valid, nearest_coord, AABB};
use crate::object::{PointDistance, RTreeObject};
use crate::point::{coord, Point};
use crate::primitives::rectangle::Rectangle;
use vstd::prelude::*;

verus! {

/// A rectangle with some data attached to it.
pub struct RectangleWithData<T, P: Point> {
    /// The data.
    pub data: T,
    rectangle: Rectangle<P>,
}

impl<T, P: Point> RectangleWithData<T, P> {
    /// The rectangle.
    pub closed spec fn rectangle_spec(&self) -> Rectangle<P> {
        self.rectangle
    }

    /// The data.
    pub closed spec fn data_spec(&self) -> T {
        self.data
    }

    /// The rectangle between two corners, with `data` attached.
    pub fn from_corners(data: T, corner_1: P, corner_2: P) -> (r: Self)
        ensures
            r.data_spec() == data,
            forall|i: int|
                #![trigger crate::aabb::lo(r.rectangle_spec().aabb_spec(), i)]
                #![trigger crate::aabb::hi(r.rectangle_spec().aabb_spec(), i)]
                0 <= i < dims::<P>() ==> crate::aabb::lo(r.rectangle_spec().aabb_spec(), i)
                    == crate::aabb::min_int(coord(corner_1, i), coord(corner_2, i))
                    && crate::aabb::hi(r.rectangle_spec().aabb_spec(), i) == crate::aabb::max_int(
                    coord(corner_1, i),
                    coord(corner_2, i),
                ),
    {
        RectangleWithData { data, rectangle: Rectangle::from_corners(corner_1, corner_2) }
    }

    /// The rectangle that is the box `aabb`, with `data` attached. The box
    /// must hold a point, which [`AABB::holds_points`] tells.
    pub fn from_aabb(data: T, aabb: AABB<P>) -> (r: Self)
        requires
            is_valid(aabb),
        ensures
            r.data_spec() == data,
            r.rectangle_spec().aabb_spec() == aabb,
    {
        RectangleWithData { data, rectangle: Rectangle::from_aabb(aabb) }
    }

    /// The lower corner.
    pub fn lower(&self) -> (r: P)
        ensures
            r == self.rectangle_spec().aabb_spec().lower_spec(),
    {
        self.rectangle.lower()
    }

    /// The upper corner.
    pub fn upper(&self) -> (r: P)
        ensures
            r == self.rectangle_spec().aabb_spec().upper_spec(),
    {
        self.rectangle.upper()
    }

    /// The point of the rectangle nearest to `query_point`.
    pub fn nearest_point(&self, query_point: &P) -> (r: P)
        ensures
            forall|i: int|
                0 <= i < dims::<P>() ==> #[trigger] coord(r, i) == nearest_coord(
                    self.rectangle_spec().aabb_spec(),
                    *query_point,
                    i,
                ),
    {
        self.rectangle.nearest_point(query_point)
    }
}

impl<T, P: Point> RTreeObject for RectangleWithData<T, P> {
    type Envelope = AABB<P>;

    open spec fn envelope_spec(&self) -> AABB<P> {
        self.rectangle_spec().envelope_spec()
    }

    proof fn lemma_envelope_valid(&self) {
        self.rectangle_spec().lemma_envelope_valid();
    }

    fn envelope(&self) -> (r: AABB<P>) {
        self.rectangle.envelope()
    }
}

impl<T, P: Point> PointDistance for RectangleWithData<T, P> {
    open spec fn distance_2_spec(&self, point: P) -> int {
        self.rectangle_spec().distance_2_spec(point)
    }

    open spec fn contains_point_spec(&self, point: P) -> bool {
        self.rectangle_spec().contains_point_spec(point)
    }

    proof fn lemma_envelope_is_nearer(&self, point: P) {
        self.rectangle_spec().lemma_envelope_is_nearer(point);
    }

    proof fn lemma_min_max_is_farther(&self, point: P) {
        self.rectangle_spec().lemma_min_max_is_farther(point);
    }

    proof fn lemma_envelope_holds_points(&self, point: P) {
        self.rectangle_spec().lemma_envelope_holds_points(point);
    }

    fn distance_2(&self, point: &P) -> (r: P::Scalar) {
        self.rectangle.distance_2(point)
    }

    fn contains_point(&self, point: &P) -> (r: bool) {
        self.rectangle.contains_point(point)
    }

    fn distance_2_if_less_or_equal(&self, point: &P, max_distance_2: P::Scalar) -> (r: Option<
        P::Scalar,
    >) {
        self.rectangle.distance_2_if_less_or_equal(point, max_distance_2)
    }
}

} // verus!
