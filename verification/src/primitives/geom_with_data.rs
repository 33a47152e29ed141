//! Objects that carry data.

use crate::envelope::Envelope;
use crate::node::{PointOf, ScalarOf};
use crate::object::{PointDistance, RTreeObject};
use vstd::prelude::*;
use vstd::std_specs::cmp::{PartialEqSpec, PartialEqSpecImpl};

verus! {

/// An object with some data attached to it.
#[derive(Clone, Copy, Debug, Eq)]
pub struct GeomWithData<R: RTreeObject, T> {
    geom: R,
    /// The data.
    pub data: T,
}

impl<R: RTreeObject + PartialEq, T: PartialEq> PartialEq for GeomWithData<R, T> {
    /// Whether the geometries are equal and the data are equal.
    fn eq(&self, other: &Self) -> (r: bool) {
        self.geom == other.geom && self.data == other.data
    }
}

impl<R: RTreeObject + PartialEq, T: PartialEq> PartialEqSpecImpl for GeomWithData<R, T> {
    open spec fn obeys_eq_spec() -> bool {
        R::obeys_eq_spec() && T::obeys_eq_spec()
    }

    open spec fn eq_spec(&self, other: &Self) -> bool {
        self.geom_spec().eq_spec(&other.geom_spec()) && self.data_spec().eq_spec(&other.data_spec())
    }
}

impl<R: RTreeObject, T> GeomWithData<R, T> {
    /// The object.
    pub closed spec fn geom_spec(&self) -> R {
        self.geom
    }

    /// The data.
    pub closed spec fn data_spec(&self) -> T {
        self.data
    }

    /// The object `geom` with `data` attached.
    pub fn new(geom: R, data: T) -> (r: Self)
        ensures
            r.geom_spec() == geom,
            r.data_spec() == data,
    {
        GeomWithData { geom, data }
    }

    /// The object.
    pub fn geom(&self) -> (r: &R)
        ensures
            *r == self.geom_spec(),
    {
        &self.geom
    }
}

impl<R: RTreeObject, T> RTreeObject for GeomWithData<R, T> {
    type Envelope = R::Envelope;

    open spec fn envelope_spec(&self) -> R::Envelope {
        self.geom_spec().envelope_spec()
    }

    proof fn lemma_envelope_valid(&self) {
        self.geom_spec().lemma_envelope_valid();
    }

    fn envelope(&self) -> (r: R::Envelope) {
        self.geom.envelope()
    }
}

impl<R: PointDistance, T> PointDistance for GeomWithData<R, T> {
    open spec fn distance_2_spec(&self, point: PointOf<R>) -> int {
        self.geom_spec().distance_2_spec(point)
    }

    open spec fn contains_point_spec(&self, point: PointOf<R>) -> bool {
        self.geom_spec().contains_point_spec(point)
    }

    proof fn lemma_envelope_is_nearer(&self, point: PointOf<R>) {
        self.geom_spec().lemma_envelope_is_nearer(point);
    }

    proof fn lemma_min_max_is_farther(&self, point: PointOf<R>) {
        self.geom_spec().lemma_min_max_is_farther(point);
    }

    proof fn lemma_envelope_holds_points(&self, point: PointOf<R>) {
        self.geom_spec().lemma_envelope_holds_points(point);
    }

    fn distance_2(&self, point: &PointOf<R>) -> (r: ScalarOf<R>) {
        self.geom.distance_2(point)
    }

    fn contains_point(&self, point: &PointOf<R>) -> (r: bool) {
        self.geom.contains_point(point)
    }

    fn distance_2_if_less_or_equal(&self, point: &PointOf<R>, max_distance_2: ScalarOf<R>) -> (r:
        Option<ScalarOf<R>>) {
        self.geom.distance_2_if_less_or_equal(point, max_distance_2)
    }
}

} // verus!
