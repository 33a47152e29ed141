//! Selection functions: the pairs of predicates that steer every search.

use crate::aabb::{
    envelope_contains, envelope_contains_point, envelope_distance_2, envelopes_intersect, AABB,
};
use crate::envelope::Envelope;
use crate::node::{PointOf, ScalarOf};
use crate::num::{saturate, RTreeNum};
use crate::object::{PointDistance, RTreeObject};
use vstd::prelude::*;
use vstd::std_specs::cmp::PartialEqSpec;

verus! {

/// A pair of predicates that steers a search through the tree.
///
/// A search descends into a parent only where `should_unpack_parent` accepts
/// its envelope, and yields a leaf only where `should_unpack_leaf` accepts it.
pub trait SelectionFunction<T: RTreeObject> {
    /// Whether a parent with this envelope is searched.
    spec fn unpacks_parent(&self, envelope: T::Envelope) -> bool;

    /// Whether this leaf is selected.
    spec fn unpacks_leaf(&self, leaf: T) -> bool;

    /// What the two methods ask of the function.
    spec fn wf(&self) -> bool;

    /// Whether a parent with this envelope is searched.
    fn should_unpack_parent(&self, envelope: &T::Envelope) -> (r: bool)
        requires
            self.wf(),
        ensures
            r == self.unpacks_parent(*envelope),
    ;

    /// Whether this leaf is selected.
    fn should_unpack_leaf(&self, leaf: &T) -> (r: bool)
        requires
            self.wf(),
        ensures
            r == self.unpacks_leaf(*leaf),
    ;
}

/// A selection function never prunes a parent that holds a leaf it would
/// select: a search with it finds all the leaves that it accepts.
pub open spec fn is_exact<T: RTreeObject, F: SelectionFunction<T>>(f: F) -> bool {
    forall|e: T::Envelope, t: T|
        #![trigger f.unpacks_parent(e), f.unpacks_leaf(t)]
        f.unpacks_leaf(t) && envelope_contains(e.bounds(), t.envelope_spec().bounds())
            ==> f.unpacks_parent(e)
}

/// Selects the objects whose envelope lies in a given envelope.
pub struct SelectInEnvelopeFunction<T: RTreeObject> {
    pub envelope: T::Envelope,
}

impl<T: RTreeObject> SelectInEnvelopeFunction<T> {
    /// The function that selects by `envelope`.
    pub fn new(envelope: T::Envelope) -> (r: Self)
        ensures
            r.envelope == envelope,
    {
        SelectInEnvelopeFunction { envelope }
    }

    /// The function prunes no parent that holds an object it selects.
    pub proof fn lemma_exact(self)
        ensures
            is_exact::<T, Self>(self),
    {
        assert forall|e: T::Envelope, t: T|
            #![trigger self.unpacks_parent(e), self.unpacks_leaf(t)]
            self.unpacks_leaf(t) && envelope_contains(
                e.bounds(),
                t.envelope_spec().bounds(),
            ) implies self.unpacks_parent(e) by {
            t.lemma_envelope_valid();
            lemma_container_intersects(self.envelope.bounds(), t.envelope_spec().bounds(), e.bounds());
        }
    }
}

/// An envelope that contains a box that holds something intersects every
/// envelope that contains that box.
pub proof fn lemma_container_intersects<P: crate::point::Point>(a: AABB<P>, inner: AABB<P>, e: AABB<P>)
    requires
        crate::aabb::is_valid(inner),
        envelope_contains(a, inner),
        envelope_contains(e, inner),
    ensures
        envelopes_intersect(a, e),
{
    assert forall|i: int|
        #![trigger crate::aabb::lo(a, i)]
        #![trigger crate::aabb::hi(a, i)]
        #![trigger crate::aabb::lo(e, i)]
        #![trigger crate::aabb::hi(e, i)]
        0 <= i < crate::aabb::dims::<P>() implies crate::aabb::lo(a, i) <= crate::aabb::hi(e, i)
        && crate::aabb::lo(e, i) <= crate::aabb::hi(a, i) by {
        assert(crate::aabb::lo(inner, i) <= crate::aabb::hi(inner, i));
        assert(crate::aabb::lo(a, i) <= crate::aabb::lo(inner, i));
        assert(crate::aabb::lo(e, i) <= crate::aabb::lo(inner, i));
    }
}

/// An envelope that intersects a box intersects every envelope that contains
/// that box.
pub proof fn lemma_intersection_grows<P: crate::point::Point>(a: AABB<P>, inner: AABB<P>, e: AABB<P>)
    requires
        envelopes_intersect(a, inner),
        envelope_contains(e, inner),
    ensures
        envelopes_intersect(a, e),
{
    assert forall|i: int|
        #![trigger crate::aabb::lo(a, i)]
        #![trigger crate::aabb::hi(a, i)]
        #![trigger crate::aabb::lo(e, i)]
        #![trigger crate::aabb::hi(e, i)]
        0 <= i < crate::aabb::dims::<P>() implies crate::aabb::lo(a, i) <= crate::aabb::hi(e, i)
        && crate::aabb::lo(e, i) <= crate::aabb::hi(a, i) by {
        assert(crate::aabb::lo(a, i) <= crate::aabb::hi(inner, i));
        assert(crate::aabb::lo(e, i) <= crate::aabb::lo(inner, i));
    }
}

impl<T: RTreeObject> SelectionFunction<T> for SelectInEnvelopeFunction<T> {
    open spec fn unpacks_parent(&self, envelope: T::Envelope) -> bool {
        envelopes_intersect(self.envelope.bounds(), envelope.bounds())
    }

    open spec fn unpacks_leaf(&self, leaf: T) -> bool {
        envelope_contains(self.envelope.bounds(), leaf.envelope_spec().bounds())
    }

    open spec fn wf(&self) -> bool {
        true
    }

    fn should_unpack_parent(&self, parent_envelope: &T::Envelope) -> (r: bool) {
        self.envelope.intersects(parent_envelope)
    }

    fn should_unpack_leaf(&self, leaf: &T) -> (r: bool) {
        self.envelope.contains_envelope(&leaf.envelope())
    }
}

/// Selects the objects whose envelope intersects a given envelope.
pub struct SelectInEnvelopeFuncIntersecting<T: RTreeObject> {
    pub envelope: T::Envelope,
}

impl<T: RTreeObject> SelectInEnvelopeFuncIntersecting<T> {
    /// The function that selects by `envelope`.
    pub fn new(envelope: T::Envelope) -> (r: Self)
        ensures
            r.envelope == envelope,
    {
        SelectInEnvelopeFuncIntersecting { envelope }
    }

    /// The function prunes no parent that holds an object it selects.
    pub proof fn lemma_exact(self)
        ensures
            is_exact::<T, Self>(self),
    {
        assert forall|e: T::Envelope, t: T|
            #![trigger self.unpacks_parent(e), self.unpacks_leaf(t)]
            self.unpacks_leaf(t) && envelope_contains(
                e.bounds(),
                t.envelope_spec().bounds(),
            ) implies self.unpacks_parent(e) by {
            lemma_intersection_grows(self.envelope.bounds(), t.envelope_spec().bounds(), e.bounds());
        }
    }
}

impl<T: RTreeObject> SelectionFunction<T> for SelectInEnvelopeFuncIntersecting<T> {
    open spec fn unpacks_parent(&self, envelope: T::Envelope) -> bool {
        envelopes_intersect(self.envelope.bounds(), envelope.bounds())
    }

    open spec fn unpacks_leaf(&self, leaf: T) -> bool {
        envelopes_intersect(self.envelope.bounds(), leaf.envelope_spec().bounds())
    }

    open spec fn wf(&self) -> bool {
        true
    }

    fn should_unpack_parent(&self, envelope: &T::Envelope) -> (r: bool) {
        self.envelope.intersects(envelope)
    }

    fn should_unpack_leaf(&self, leaf: &T) -> (r: bool) {
        let r = leaf.envelope().intersects(&self.envelope);
        proof {
            let a = self.envelope.bounds();
            let b = leaf.envelope_spec().bounds();
            assert(envelopes_intersect(b, a) == envelopes_intersect(a, b)) by {
                lemma_intersects_symmetric(a, b);
            }
        }
        r
    }
}

/// Two envelopes intersect whichever is asked.
pub proof fn lemma_intersects_symmetric<P: crate::point::Point>(a: AABB<P>, b: AABB<P>)
    ensures
        envelopes_intersect(a, b) == envelopes_intersect(b, a),
{
    if envelopes_intersect(a, b) {
        assert forall|i: int|
            #![trigger crate::aabb::lo(a, i)]
            #![trigger crate::aabb::hi(a, i)]
            #![trigger crate::aabb::lo(b, i)]
            #![trigger crate::aabb::hi(b, i)]
            0 <= i < crate::aabb::dims::<P>() implies crate::aabb::lo(b, i) <= crate::aabb::hi(a, i)
            && crate::aabb::lo(a, i) <= crate::aabb::hi(b, i) by {
            assert(crate::aabb::lo(a, i) <= crate::aabb::hi(b, i));
        }
    }
    if envelopes_intersect(b, a) {
        assert forall|i: int|
            #![trigger crate::aabb::lo(a, i)]
            #![trigger crate::aabb::hi(a, i)]
            #![trigger crate::aabb::lo(b, i)]
            #![trigger crate::aabb::hi(b, i)]
            0 <= i < crate::aabb::dims::<P>() implies crate::aabb::lo(a, i) <= crate::aabb::hi(b, i)
            && crate::aabb::lo(b, i) <= crate::aabb::hi(a, i) by {
            assert(crate::aabb::lo(b, i) <= crate::aabb::hi(a, i));
        }
    }
}

/// Selects every object.
pub struct SelectAllFunc;

impl SelectAllFunc {
    /// The function prunes no parent.
    pub proof fn lemma_exact<T: RTreeObject>(self)
        ensures
            is_exact::<T, Self>(self),
    {
    }
}

impl<T: RTreeObject> SelectionFunction<T> for SelectAllFunc {
    open spec fn unpacks_parent(&self, envelope: T::Envelope) -> bool {
        true
    }

    open spec fn unpacks_leaf(&self, leaf: T) -> bool {
        true
    }

    open spec fn wf(&self) -> bool {
        true
    }

    fn should_unpack_parent(&self, envelope: &T::Envelope) -> (r: bool) {
        true
    }

    fn should_unpack_leaf(&self, leaf: &T) -> (r: bool) {
        true
    }
}

/// Selects the objects that hold a given point.
pub struct SelectAtPointFunction<T: RTreeObject> {
    pub point: PointOf<T>,
}

impl<T: PointDistance> SelectAtPointFunction<T> {
    /// The function that selects the objects that hold `point`.
    pub fn new(point: PointOf<T>) -> (r: Self)
        ensures
            r.point == point,
    {
        SelectAtPointFunction { point }
    }

    /// The function prunes no parent that holds an object it selects.
    pub proof fn lemma_exact(self)
        ensures
            is_exact::<T, Self>(self),
    {
        assert forall|e: T::Envelope, t: T|
            #![trigger self.unpacks_parent(e), self.unpacks_leaf(t)]
            self.unpacks_leaf(t) && envelope_contains(
                e.bounds(),
                t.envelope_spec().bounds(),
            ) implies self.unpacks_parent(e) by {
            t.lemma_envelope_holds_points(self.point);
            lemma_point_in_container(t.envelope_spec().bounds(), e.bounds(), self.point);
        }
    }
}

/// A point of a box lies in every envelope that contains the box.
pub proof fn lemma_point_in_container<P: crate::point::Point>(inner: AABB<P>, e: AABB<P>, p: P)
    requires
        envelope_contains_point(inner, p),
        envelope_contains(e, inner),
    ensures
        envelope_contains_point(e, p),
{
    assert forall|i: int|
        #![trigger crate::aabb::lo(e, i)]
        #![trigger crate::aabb::hi(e, i)]
        #![trigger crate::point::coord(p, i)]
        0 <= i < crate::aabb::dims::<P>() implies crate::aabb::lo(e, i) <= crate::point::coord(p, i)
        <= crate::aabb::hi(e, i) by {
        assert(crate::aabb::lo(inner, i) <= crate::point::coord(p, i) <= crate::aabb::hi(inner, i));
        assert(crate::aabb::lo(e, i) <= crate::aabb::lo(inner, i));
    }
}

impl<T: PointDistance> SelectionFunction<T> for SelectAtPointFunction<T> {
    open spec fn unpacks_parent(&self, envelope: T::Envelope) -> bool {
        envelope_contains_point(envelope.bounds(), self.point)
    }

    open spec fn unpacks_leaf(&self, leaf: T) -> bool {
        leaf.contains_point_spec(self.point)
    }

    open spec fn wf(&self) -> bool {
        true
    }

    fn should_unpack_parent(&self, envelope: &T::Envelope) -> (r: bool) {
        envelope.contains_point(&self.point)
    }

    fn should_unpack_leaf(&self, leaf: &T) -> (r: bool) {
        leaf.contains_point(&self.point)
    }
}

/// Selects the objects equal to a given one.
pub struct SelectEqualsFunction<'a, T: RTreeObject + PartialEq> {
    /// Only objects equal to this one are selected.
    pub object_to_remove: &'a T,
}

impl<'a, T: RTreeObject + PartialEq> SelectEqualsFunction<'a, T> {
    /// The function that selects the objects equal to `object_to_remove`.
    pub fn new(object_to_remove: &'a T) -> (r: Self)
        ensures
            r.object_to_remove == object_to_remove,
    {
        SelectEqualsFunction { object_to_remove }
    }
}

/// Objects that `==` holds equal have the same envelope.
pub open spec fn equal_objects_share_envelopes<T: RTreeObject + PartialEq>() -> bool {
    forall|a: T, b: T| #[trigger] a.eq_spec(&b) ==> a.envelope_spec() == b.envelope_spec()
}

impl<'a, T: RTreeObject + PartialEq> SelectEqualsFunction<'a, T> {
    /// Where equal objects have the same envelope, the function prunes no
    /// parent that holds an object it selects.
    pub proof fn lemma_exact(self)
        requires
            equal_objects_share_envelopes::<T>(),
        ensures
            is_exact::<T, Self>(self),
    {
        assert forall|e: T::Envelope, t: T|
            #![trigger self.unpacks_parent(e), self.unpacks_leaf(t)]
            self.unpacks_leaf(t) && envelope_contains(
                e.bounds(),
                t.envelope_spec().bounds(),
            ) implies self.unpacks_parent(e) by {
            assert(t.eq_spec(self.object_to_remove));
        }
    }
}

impl<'a, T: RTreeObject + PartialEq> SelectionFunction<T> for SelectEqualsFunction<'a, T> {
    open spec fn unpacks_parent(&self, envelope: T::Envelope) -> bool {
        envelope_contains(envelope.bounds(), self.object_to_remove.envelope_spec().bounds())
    }

    open spec fn unpacks_leaf(&self, leaf: T) -> bool {
        leaf.eq_spec(self.object_to_remove)
    }

    /// `==` on the objects is what its specification says.
    open spec fn wf(&self) -> bool {
        T::obeys_eq_spec()
    }

    fn should_unpack_parent(&self, parent_envelope: &T::Envelope) -> (r: bool) {
        parent_envelope.contains_envelope(&self.object_to_remove.envelope())
    }

    fn should_unpack_leaf(&self, leaf: &T) -> (r: bool) {
        leaf == self.object_to_remove
    }
}

/// Selects the objects within a given squared distance of a point.
pub struct SelectWithinDistanceFunction<T: RTreeObject> {
    pub circle_origin: PointOf<T>,
    pub squared_max_distance: ScalarOf<T>,
}

impl<T: PointDistance> SelectWithinDistanceFunction<T> {
    /// The function that selects the objects within `squared_max_distance`
    /// of `circle_origin`.
    pub fn new(circle_origin: PointOf<T>, squared_max_distance: ScalarOf<T>) -> (r: Self)
        ensures
            r.circle_origin == circle_origin,
            r.squared_max_distance == squared_max_distance,
    {
        SelectWithinDistanceFunction { circle_origin, squared_max_distance }
    }
}

impl<T: PointDistance> SelectWithinDistanceFunction<T> {
    /// The function prunes no parent that holds an object it selects.
    pub proof fn lemma_exact(self)
        ensures
            is_exact::<T, Self>(self),
    {
        assert forall|e: T::Envelope, t: T|
            #![trigger self.unpacks_parent(e), self.unpacks_leaf(t)]
            self.unpacks_leaf(t) && envelope_contains(
                e.bounds(),
                t.envelope_spec().bounds(),
            ) implies self.unpacks_parent(e) by {
            t.lemma_envelope_valid();
            crate::node::lemma_limits_of::<T>();
            crate::algorithm::nearest_neighbor::lemma_distance_antitone(
                e.bounds(),
                t.envelope_spec().bounds(),
                self.circle_origin,
                crate::aabb::dims::<PointOf<T>>(),
            );
            t.lemma_envelope_is_nearer(self.circle_origin);
        }
    }
}

impl<T: PointDistance> SelectionFunction<T> for SelectWithinDistanceFunction<T> {
    open spec fn unpacks_parent(&self, envelope: T::Envelope) -> bool {
        saturate::<ScalarOf<T>>(envelope_distance_2(envelope.bounds(), self.circle_origin))
            <= self.squared_max_distance.value()
    }

    open spec fn unpacks_leaf(&self, leaf: T) -> bool {
        leaf.distance_2_spec(self.circle_origin) <= self.squared_max_distance.value()
    }

    open spec fn wf(&self) -> bool {
        true
    }

    fn should_unpack_parent(&self, parent_envelope: &T::Envelope) -> (r: bool) {
        let envelope_distance = parent_envelope.distance_2(&self.circle_origin);
        envelope_distance.less_eq(self.squared_max_distance)
    }

    fn should_unpack_leaf(&self, leaf: &T) -> (r: bool) {
        leaf.distance_2_if_less_or_equal(&self.circle_origin, self.squared_max_distance).is_some()
    }
}


/// Selects the objects with a given envelope at a given squared distance of
/// a point.
pub struct SelectAtDistanceFunction<T: RTreeObject> {
    pub envelope: T::Envelope,
    pub point: PointOf<T>,
    pub distance_2: ScalarOf<T>,
}

impl<T: PointDistance> SelectAtDistanceFunction<T> {
    /// The function that selects the objects with the envelope `envelope`
    /// at the squared distance `distance_2` of `point`.
    pub fn new(envelope: T::Envelope, point: PointOf<T>, distance_2: ScalarOf<T>) -> (r: Self)
        ensures
            r.envelope == envelope,
            r.point == point,
            r.distance_2 == distance_2,
    {
        SelectAtDistanceFunction { envelope, point, distance_2 }
    }

    /// The function prunes no parent that holds an object it selects.
    pub proof fn lemma_exact(self)
        ensures
            is_exact::<T, Self>(self),
    {
    }
}

impl<T: PointDistance> SelectionFunction<T> for SelectAtDistanceFunction<T> {
    open spec fn unpacks_parent(&self, envelope: T::Envelope) -> bool {
        envelope_contains(envelope.bounds(), self.envelope.bounds())
    }

    open spec fn unpacks_leaf(&self, leaf: T) -> bool {
        leaf.envelope_spec() == self.envelope && leaf.distance_2_spec(self.point)
            == self.distance_2.value()
    }

    open spec fn wf(&self) -> bool {
        true
    }

    fn should_unpack_parent(&self, parent_envelope: &T::Envelope) -> (r: bool) {
        parent_envelope.contains_envelope(&self.envelope)
    }

    fn should_unpack_leaf(&self, leaf: &T) -> (r: bool) {
        let envelope = leaf.envelope();
        let same = envelope.contains_envelope(&self.envelope) && self.envelope.contains_envelope(
            &envelope,
        );
        proof {
            let a = envelope.bounds();
            let b = self.envelope.bounds();
            if same {
                assert(crate::aabb::same_bounds(a, b)) by {
                    assert forall|i: int|
                        #![trigger crate::aabb::lo(a, i)]
                        #![trigger crate::aabb::hi(a, i)]
                        0 <= i < crate::aabb::dims::<PointOf<T>>() implies crate::aabb::lo(a, i)
                        == crate::aabb::lo(b, i) && crate::aabb::hi(a, i) == crate::aabb::hi(b, i) by {
                        assert(crate::aabb::lo(a, i) <= crate::aabb::lo(b, i));
                        assert(crate::aabb::lo(b, i) <= crate::aabb::lo(a, i));
                    }
                }
                crate::aabb::lemma_same_bounds(a, b);
                T::Envelope::lemma_extensional(envelope, self.envelope);
            } else if envelope == self.envelope {
                crate::algorithm::iterators::lemma_contains_itself(a);
            }
        }
        same && leaf.distance_2(&self.point).to_i64() == self.distance_2.to_i64()
    }
}

} // verus!
