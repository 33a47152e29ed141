//! Objects that keep their envelope, under their later name.

use crate::envelope::Envelope;
use crate::node::{PointOf, ScalarOf};
use crate::object::{PointDistance, RTreeObject};
use vstd::prelude::*;
use vstd::std_specs::cmp::{PartialEqSpec, PartialEqSpecImpl};

verus! {

/// An object whose envelope is computed once, when the container is made.
///
/// This pays where the envelope is expensive to compute.
#[derive(Debug)]
pub struct GeomWithCachedEnvelope<T: RTreeObject> {
    geom: T,
    cached_env: T::Envelope,
}

impl<T: RTreeObject + PartialEq> PartialEq for GeomWithCachedEnvelope<T> {
    /// Whether the objects are equal: the envelope that is kept is that of
    /// the object.
    fn eq(&self, other: &Self) -> (r: bool) {
        self.geom == other.geom
    }
}

impl<T: RTreeObject + Eq> Eq for GeomWithCachedEnvelope<T> {

}

impl<T: RTreeObject + PartialEq> PartialEqSpecImpl for GeomWithCachedEnvelope<T> {
    open spec fn obeys_eq_spec() -> bool {
        T::obeys_eq_spec()
    }

    open spec fn eq_spec(&self, other: &Self) -> bool {
        self.geom_spec().eq_spec(&other.geom_spec())
    }
}

impl<T: RTreeObject> GeomWithCachedEnvelope<T> {
    /// What holds of every container: it keeps the envelope of its object.
    #[verifier::type_invariant]
    pub closed spec fn inv(&self) -> bool {
        self.cached_env == self.geom.envelope_spec()
    }

    /// The object.
    pub closed spec fn geom_spec(&self) -> T {
        self.geom
    }

    /// The container of `geom`.
    pub fn new(geom: T) -> (r: Self)
        ensures
            r.geom_spec() == geom,
    {
        let cached_env = geom.envelope();
        GeomWithCachedEnvelope { geom, cached_env }
    }

    /// The object.
    pub fn geom(&self) -> (r: &T)
        ensures
            *r == self.geom_spec(),
    {
        &self.geom
    }
}

impl<T: RTreeObject + Copy> Clone for GeomWithCachedEnvelope<T> {
    fn clone(&self) -> (r: Self)
        ensures
            r == *self,
    {
        proof {
            use_type_invariant(self);
        }
        GeomWithCachedEnvelope { geom: self.geom, cached_env: self.cached_env }
    }
}

impl<T: RTreeObject + Copy> Copy for GeomWithCachedEnvelope<T> {

}

impl<T: RTreeObject> RTreeObject for GeomWithCachedEnvelope<T> {
    type Envelope = T::Envelope;

    open spec fn envelope_spec(&self) -> T::Envelope {
        self.geom_spec().envelope_spec()
    }

    proof fn lemma_envelope_valid(&self) {
        self.geom_spec().lemma_envelope_valid();
    }

    fn envelope(&self) -> (r: T::Envelope) {
        proof {
            use_type_invariant(self);
        }
        self.cached_env
    }
}

impl<T: PointDistance> PointDistance for GeomWithCachedEnvelope<T> {
    open spec fn distance_2_spec(&self, point: PointOf<T>) -> int {
        self.geom_spec().distance_2_spec(point)
    }

    open spec fn contains_point_spec(&self, point: PointOf<T>) -> bool {
        self.geom_spec().contains_point_spec(point)
    }

    proof fn lemma_envelope_is_nearer(&self, point: PointOf<T>) {
        self.geom_spec().lemma_envelope_is_nearer(point);
    }

    proof fn lemma_min_max_is_farther(&self, point: PointOf<T>) {
        self.geom_spec().lemma_min_max_is_farther(point);
    }

    proof fn lemma_envelope_holds_points(&self, point: PointOf<T>) {
        self.geom_spec().lemma_envelope_holds_points(point);
    }

    fn distance_2(&self, point: &PointOf<T>) -> (r: ScalarOf<T>) {
        self.geom.distance_2(point)
    }

    fn contains_point(&self, point: &PointOf<T>) -> (r: bool) {
        self.geom.contains_point(point)
    }

    fn distance_2_if_less_or_equal(&self, point: &PointOf<T>, max_distance_2: ScalarOf<T>) -> (r:
        Option<ScalarOf<T>>) {
        self.geom.distance_2_if_less_or_equal(point, max_distance_2)
    }
}

} // verus!
