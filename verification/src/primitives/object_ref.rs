//! References to objects, as objects.

use crate::envelope::Envelope;
use crate::node::{PointOf, ScalarOf};
use crate::object::{PointDistance, RTreeObject};
use vstd::prelude::*;

verus! {

/// A reference to an object: a tree of these refers to objects that are kept
/// elsewhere.
pub struct ObjectRef<'a, T: RTreeObject> {
    inner: &'a T,
}

impl<'a, T: RTreeObject> ObjectRef<'a, T> {
    /// The object referred to.
    pub closed spec fn inner_spec(&self) -> T {
        *self.inner
    }

    /// The reference to `inner` as an object.
    pub fn new(inner: &'a T) -> (r: Self)
        ensures
            r.inner_spec() == *inner,
    {
        ObjectRef { inner }
    }

    /// The object referred to.
    pub fn inner(&self) -> (r: &'a T)
        ensures
            *r == self.inner_spec(),
    {
        self.inner
    }
}

impl<'a, T: RTreeObject> RTreeObject for ObjectRef<'a, T> {
    type Envelope = T::Envelope;

    open spec fn envelope_spec(&self) -> T::Envelope {
        self.inner_spec().envelope_spec()
    }

    proof fn lemma_envelope_valid(&self) {
        self.inner_spec().lemma_envelope_valid();
    }

    fn envelope(&self) -> (r: T::Envelope) {
        self.inner.envelope()
    }
}

impl<'a, T: PointDistance> PointDistance for ObjectRef<'a, T> {
    open spec fn distance_2_spec(&self, point: PointOf<T>) -> int {
        self.inner_spec().distance_2_spec(point)
    }

    open spec fn contains_point_spec(&self, point: PointOf<T>) -> bool {
        self.inner_spec().contains_point_spec(point)
    }

    proof fn lemma_envelope_is_nearer(&self, point: PointOf<T>) {
        self.inner_spec().lemma_envelope_is_nearer(point);
    }

    proof fn lemma_min_max_is_farther(&self, point: PointOf<T>) {
        self.inner_spec().lemma_min_max_is_farther(point);
    }

    proof fn lemma_envelope_holds_points(&self, point: PointOf<T>) {
        self.inner_spec().lemma_envelope_holds_points(point);
    }

    fn distance_2(&self, point: &PointOf<T>) -> (r: ScalarOf<T>) {
        self.inner.distance_2(point)
    }

    fn contains_point(&self, point: &PointOf<T>) -> (r: bool) {
        self.inner.contains_point(point)
    }

    fn distance_2_if_less_or_equal(&self, point: &PointOf<T>, max_distance_2: ScalarOf<T>) -> (r:
        Option<ScalarOf<T>>) {
        self.inner.distance_2_if_less_or_equal(point, max_distance_2)
    }
}

} // verus!
