//! Points that carry data.

use crate::aabb::AABB;
use crate::object::{PointDistance, RTreeObject};
use crate::point::Point;
use vstd::prelude::*;
use vstd::std_specs::cmp::{PartialEqSpec, PartialEqSpecImpl};

verus! {

/// A point with some data attached to it.
#[derive(Clone, Copy, Debug)]
pub struct PointWithData<T, P> {
    /// The data.
    pub data: T,
    point: P,
}

impl<T: PartialEq, P: Point> PartialEq for PointWithData<T, P> {
    /// Whether the data are equal and the points are the same.
    fn eq(&self, other: &Self) -> (r: bool) {
        self.data == other.data && crate::point::points_equal(&self.point, &other.point)
    }
}

impl<T: Eq, P: Point> Eq for PointWithData<T, P> {

}

impl<T: PartialEq, P: Point> PartialEqSpecImpl for PointWithData<T, P> {
    open spec fn obeys_eq_spec() -> bool {
        T::obeys_eq_spec()
    }

    open spec fn eq_spec(&self, other: &Self) -> bool {
        self.data_spec().eq_spec(&other.data_spec()) && self.position_spec() == other.position_spec()
    }
}

impl<T, P> PointWithData<T, P> {
    /// The position.
    pub closed spec fn position_spec(&self) -> P {
        self.point
    }

    /// The data.
    pub closed spec fn data_spec(&self) -> T {
        self.data
    }

    /// The point `point` with `data` attached.
    pub fn new(data: T, point: P) -> (r: Self)
        ensures
            r.data_spec() == data,
            r.position_spec() == point,
    {
        PointWithData { data, point }
    }

    /// The position.
    pub fn position(&self) -> (r: &P)
        ensures
            *r == self.position_spec(),
    {
        &self.point
    }
}

impl<T, P: Point> RTreeObject for PointWithData<T, P> {
    type Envelope = AABB<P>;

    open spec fn envelope_spec(&self) -> AABB<P> {
        self.position_spec().envelope_spec()
    }

    proof fn lemma_envelope_valid(&self) {
        self.position_spec().lemma_envelope_valid();
    }

    fn envelope(&self) -> (r: AABB<P>) {
        self.point.envelope()
    }
}

impl<T, P: Point> PointDistance for PointWithData<T, P> {
    open spec fn distance_2_spec(&self, point: P) -> int {
        self.position_spec().distance_2_spec(point)
    }

    open spec fn contains_point_spec(&self, point: P) -> bool {
        self.position_spec().contains_point_spec(point)
    }

    proof fn lemma_envelope_is_nearer(&self, point: P) {
        self.position_spec().lemma_envelope_is_nearer(point);
    }

    proof fn lemma_min_max_is_farther(&self, point: P) {
        self.position_spec().lemma_min_max_is_farther(point);
    }

    proof fn lemma_envelope_holds_points(&self, point: P) {
        self.position_spec().lemma_envelope_holds_points(point);
    }

    fn distance_2(&self, point: &P) -> (r: P::Scalar) {
        PointDistance::distance_2(&self.point, point)
    }

    fn contains_point(&self, point: &P) -> (r: bool) {
        PointDistance::contains_point(&self.point, point)
    }
}

} // verus!
