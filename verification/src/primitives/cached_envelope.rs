//! Objects that keep their envelope.

use crate::envelope::Envelope;
use crate::node::{PointOf, ScalarOf};
use crate::object::{PointDistance, RTreeObject};
use vstd::prelude::*;
use vstd::std_specs::cmp::{PartialEqSpec, PartialEqSpecImpl};

verus! {

/// An object whose envelope is computed once, when the container is made.
///
/// This pays where the envelope is expensive to compute.
#[derive(Debug)]
pub struct CachedEnvelope<T: RTreeObject> {
    inner: T,
    cached_env: T::Envelope,
}

impl<T: RTreeObject + PartialEq> PartialEq for CachedEnvelope<T> {
    /// Whether the objects are equal: the envelope that is kept is that of
    /// the object.
    fn eq(&self, other: &Self) -> (r: bool) {
        self.inner == other.inner
    }
}

impl<T: RTreeObject + Eq> Eq for CachedEnvelope<T> {

}

impl<T: RTreeObject + PartialEq> PartialEqSpecImpl for CachedEnvelope<T> {
    open spec fn obeys_eq_spec() -> bool {
        T::obeys_eq_spec()
    }

    open spec fn eq_spec(&self, other: &Self) -> bool {
        self.inner_spec().eq_spec(&other.inner_spec())
    }
}

impl<T: RTreeObject> CachedEnvelope<T> {
    /// What holds of every container: it keeps the envelope of its object.
    #[verifier::type_invariant]
    pub closed spec fn inv(&self) -> bool {
        self.cached_env == self.inner.envelope_spec()
    }

    /// The object.
    pub closed spec fn inner_spec(&self) -> T {
        self.inner
    }

    /// The container of `inner`.
    pub fn new(inner: T) -> (r: Self)
        ensures
            r.inner_spec() == inner,
    {
        let cached_env = inner.envelope();
        CachedEnvelope { inner, cached_env }
    }

    /// The object.
    pub fn inner(&self) -> (r: &T)
        ensures
            *r == self.inner_spec(),
    {
        &self.inner
    }
}

impl<T: RTreeObject + Copy> Clone for CachedEnvelope<T> {
    fn clone(&self) -> (r: Self)
        ensures
            r == *self,
    {
        proof {
            use_type_invariant(self);
        }
        CachedEnvelope { inner: self.inner, cached_env: self.cached_env }
    }
}

impl<T: RTreeObject + Copy> Copy for CachedEnvelope<T> {

}

impl<T: RTreeObject> RTreeObject for CachedEnvelope<T> {
    type Envelope = T::Envelope;

    open spec fn envelope_spec(&self) -> T::Envelope {
        self.inner_spec().envelope_spec()
    }

    proof fn lemma_envelope_valid(&self) {
        self.inner_spec().lemma_envelope_valid();
    }

    fn envelope(&self) -> (r: T::Envelope) {
        proof {
            use_type_invariant(self);
        }
        self.cached_env
    }
}

impl<T: PointDistance> PointDistance for CachedEnvelope<T> {
    open spec fn distance_2_spec(&self, point: PointOf<T>) -> int {
        self.inner_spec().distance_2_spec(point)
    }

    open spec fn contains_point_spec(&self, point: PointOf<T>) -> bool {
        self.inner_spec().contains_point_spec(point)
    }

    proof fn lemma_envelope_is_nearer(&self, point: PointOf<T>) {
        self.inner_spec().lemma_envelope_is_nearer(point);
    }

    proof fn lemma_min_max_is_farther(&self, point: PointOf<T>) {
        self.inner_spec().lemma_min_max_is_farther(point);
    }

    proof fn lemma_envelope_holds_points(&self, point: PointOf<T>) {
        self.inner_spec().lemma_envelope_holds_points(point);
    }

    fn distance_2(&self, point: &PointOf<T>) -> (r: ScalarOf<T>) {
        self.inner.distance_2(point)
    }

    fn contains_point(&self, point: &PointOf<T>) -> (r: bool) {
        self.inner.contains_point(point)
    }

    fn distance_2_if_less_or_equal(&self, point: &PointOf<T>, max_distance_2: ScalarOf<T>) -> (r:
        Option<ScalarOf<T>>) {
        self.inner.distance_2_if_less_or_equal(point, max_distance_2)
    }
}

} // verus!
