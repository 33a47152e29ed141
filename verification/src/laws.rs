//! What holds of the tree's operations taken together.
//!
//! The operations state what they do over the objects of a tree, as a
//! multiset or in the order of the tree. The laws here are stated over the
//! same values.

use crate::aabb::{
    dims, envelope_min_max_dist_2, far_square, hi, lo, min_max_candidate, min_max_candidate_upto,
    near_square, AABB,
};
use crate::algorithm::bulk_load::cluster_group_iterator::is_tree_depth;
use crate::algorithm::intersection_iterator::{objects_intersect, pairs_between, pairs_with};
use crate::algorithm::iterators::{accepted, values};
use crate::algorithm::nearest_neighbor::{is_nearest, sorted_by_distance};
use crate::algorithm::selection_functions::{SelectAllFunc, SelectionFunction};
use crate::node::PointOf;
use crate::object::{PointDistance, RTreeObject};
use crate::point::{coord, distance_2_upto, point_distance_2, Point};
use crate::rtree::RTree;
use vstd::multiset::Multiset;
use vstd::prelude::*;

verus! {

/// Two trees that are loaded with the same objects in different orders hold
/// the same objects, and as many.
pub proof fn lemma_bulk_load_any_order<T: RTreeObject>(
    first: RTree<T>,
    second: RTree<T>,
    xs: Seq<T>,
    ys: Seq<T>,
)
    requires
        first.wf(),
        second.wf(),
        first@ == xs.to_multiset(),
        second@ == ys.to_multiset(),
        xs.to_multiset() == ys.to_multiset(),
    ensures
        first@ == second@,
        first.size_spec() == second.size_spec(),
        first.size_spec() == xs.len(),
        first.items().to_set() == second.items().to_set(),
        first.items().to_set() == ys.to_set(),
{
    broadcast use vstd::multiset::group_multiset_axioms;

    first.lemma_items();
    second.lemma_items();
    vstd::seq_lib::to_multiset_len(xs);
    vstd::seq_lib::to_multiset_len(ys);
    let a = first.items();
    let b = second.items();
    assert forall|t: T| a.to_set().contains(t) == b.to_set().contains(t) && a.to_set().contains(t)
        == ys.to_set().contains(t) by {
        a.to_multiset_ensures();
        b.to_multiset_ensures();
        ys.to_multiset_ensures();
        assert(a.contains(t) <==> a.to_multiset().count(t) > 0);
        assert(b.contains(t) <==> b.to_multiset().count(t) > 0);
        assert(ys.contains(t) <==> ys.to_multiset().count(t) > 0);
    }
    assert(a.to_set() =~= b.to_set());
    assert(a.to_set() =~= ys.to_set());
}

/// A number of objects has one depth: the bound on the height of a tree that
/// is loaded at once is that of the depth of its objects.
pub proof fn lemma_tree_depth_unique(first: int, second: int, number_of_elements: int, max_size: int)
    requires
        max_size >= 2,
        is_tree_depth(first, number_of_elements, max_size),
        is_tree_depth(second, number_of_elements, max_size),
    ensures
        first == second,
{
    if first < second {
        vstd::arithmetic::power::lemma_pow_increases(
            max_size as nat,
            first as nat,
            (second - 1) as nat,
        );
    } else if second < first {
        vstd::arithmetic::power::lemma_pow_increases(
            max_size as nat,
            second as nat,
            (first - 1) as nat,
        );
    }
}

/// Taking out what was put in gives what was, which is smaller by one.
pub proof fn lemma_insert_remove<V>(bag: Multiset<V>, t: V)
    ensures
        bag.insert(t).remove(t) == bag,
        bag.insert(t).count(t) > 0,
        bag.insert(t).len() == bag.len() + 1,
{
    broadcast use vstd::multiset::group_multiset_axioms;

    assert(bag.insert(t).remove(t) =~= bag);
}

/// A search yields exactly the objects that its selection function accepts,
/// each as often as the tree holds it.
pub proof fn lemma_accepted_exactly<T: RTreeObject, F: SelectionFunction<T>>(leaves: Seq<T>, f: F, t: T)
    ensures
        accepted(leaves, f).to_multiset().count(t) == if f.unpacks_leaf(t) {
            leaves.to_multiset().count(t)
        } else {
            0
        },
    decreases leaves.len(),
{
    broadcast use vstd::multiset::group_multiset_axioms;

    if leaves.len() == 0 {
        assert(leaves.to_multiset().count(t) == 0) by {
            leaves.to_multiset_ensures();
        }
        assert(accepted(leaves, f).to_multiset().count(t) == 0) by {
            accepted(leaves, f).to_multiset_ensures();
        }
    } else {
        let rest = leaves.drop_last();
        let last = leaves.last();
        lemma_accepted_exactly(rest, f, t);
        assert(rest.push(last) =~= leaves);
        rest.to_multiset_ensures();
        assert(leaves.to_multiset() == rest.to_multiset().insert(last));
        if f.unpacks_leaf(last) {
            accepted(rest, f).to_multiset_ensures();
            assert(accepted(leaves, f).to_multiset() == accepted(rest, f).to_multiset().insert(last));
        }
    }
}

/// A search for everything yields all objects of the tree, in its order.
pub proof fn lemma_accepted_all<T: RTreeObject>(leaves: Seq<T>, f: SelectAllFunc)
    ensures
        accepted(leaves, f) == leaves,
    decreases leaves.len(),
{
    if leaves.len() > 0 {
        lemma_accepted_all(leaves.drop_last(), f);
        assert(leaves.drop_last().push(leaves.last()) =~= leaves);
    } else {
        assert(accepted(leaves, f) =~= leaves);
    }
}

/// Draining a tree of all that a selection function accepts, where the
/// function accepts everything, yields every object of the tree once and
/// leaves the tree empty.
pub proof fn lemma_drain_all<T: RTreeObject>(
    held: Multiset<T>,
    yielded: Seq<T>,
    left: Multiset<T>,
    f: SelectAllFunc,
)
    requires
        yielded.to_multiset().add(left) == held,
        forall|t: T| left.count(t) > 0 ==> !#[trigger] SelectionFunction::<T>::unpacks_leaf(&f, t),
    ensures
        left.len() == 0,
        yielded.to_multiset() == held,
        yielded.len() == held.len(),
{
    broadcast use vstd::multiset::group_multiset_axioms;

    assert forall|t: T| left.count(t) == 0 by {
        if left.count(t) > 0 {
            assert(SelectionFunction::<T>::unpacks_leaf(&f, t));
        }
    }
    assert(left =~= Multiset::<T>::empty());
    assert(yielded.to_multiset() =~= held);
    vstd::seq_lib::to_multiset_len(yielded);
}

/// The first of all objects in the order of their distances is a nearest
/// neighbor.
pub proof fn lemma_first_is_nearest<T: PointDistance>(
    found: Seq<&T>,
    bag: Multiset<T>,
    query_point: PointOf<T>,
)
    requires
        values(found).to_multiset() == bag,
        sorted_by_distance(found, query_point),
        found.len() > 0,
    ensures
        is_nearest(*found[0], bag, query_point),
{
    let objects = values(found);
    objects.to_multiset_ensures();
    assert(objects[0] == *found[0]);
    assert(objects.contains(objects[0]));
    assert forall|other: T| bag.count(other) > 0 implies found[0].distance_2_spec(query_point)
        <= #[trigger] other.distance_2_spec(query_point) by {
        assert(objects.contains(other));
        let j = choose|j: int| 0 <= j < objects.len() && objects[j] == other;
        assert(*found[j] == other);
        assert(found[0].distance_2_spec(query_point) <= found[j].distance_2_spec(query_point));
    }
}

/// Among the pairs of `t` and the objects of `others` whose envelopes
/// intersect, a pair occurs as often as its second object occurs in `others`.
pub proof fn lemma_pairs_with_exactly<T: RTreeObject, U: RTreeObject<Envelope = T::Envelope>>(
    t: T,
    others: Seq<U>,
    a: T,
    b: U,
)
    ensures
        pairs_with(t, others).count((a, b)) == if a == t && objects_intersect(a, b) {
            others.to_multiset().count(b)
        } else {
            0
        },
    decreases others.len(),
{
    broadcast use vstd::multiset::group_multiset_axioms;

    others.to_multiset_ensures();
    if others.len() > 0 {
        let rest = others.drop_last();
        let last = others.last();
        lemma_pairs_with_exactly(t, rest, a, b);
        assert(rest.push(last) =~= others);
        rest.to_multiset_ensures();
        assert(others.to_multiset() == rest.to_multiset().insert(last));
    }
}

/// The intersection of two trees holds exactly the pairs of an object of the
/// first and an object of the second whose envelopes intersect, each as
/// often as the trees hold its two objects.
pub proof fn lemma_pairs_between_exactly<T: RTreeObject, U: RTreeObject<Envelope = T::Envelope>>(
    first: Seq<T>,
    second: Seq<U>,
    a: T,
    b: U,
)
    ensures
        pairs_between(first, second).count((a, b)) == if objects_intersect(a, b) {
            first.to_multiset().count(a) * second.to_multiset().count(b)
        } else {
            0
        },
    decreases first.len(),
{
    broadcast use vstd::multiset::group_multiset_axioms;

    first.to_multiset_ensures();
    if first.len() > 0 {
        let rest = first.drop_last();
        let last = first.last();
        lemma_pairs_between_exactly(rest, second, a, b);
        lemma_pairs_with_exactly(last, second, a, b);
        assert(rest.push(last) =~= first);
        rest.to_multiset_ensures();
        assert(first.to_multiset() == rest.to_multiset().insert(last));
        let n = rest.to_multiset().count(a);
        let m = second.to_multiset().count(b);
        if objects_intersect(a, b) {
            if a == last {
                assert((n + 1) * m == n * m + m) by (nonlinear_arith);
            }
        }
    } else {
        assert(first.to_multiset().count(a) == 0);
        assert(0 * second.to_multiset().count(b) == 0);
    }
}

/// `c` is the corner of `e` that is nearest to `p` on axis `k` and farthest
/// from it on all other axes.
pub open spec fn is_min_max_corner<P: Point>(c: P, e: AABB<P>, p: P, k: int) -> bool {
    forall|i: int|
        0 <= i < dims::<P>() ==> {
            &&& #[trigger] coord(c, i) == lo(e, i) || coord(c, i) == hi(e, i)
            &&& (coord(c, i) - coord(p, i)) * (coord(c, i) - coord(p, i)) == if i == k {
                near_square(e, p, i)
            } else {
                far_square(e, p, i)
            }
        }
}

/// The coordinate on axis `i` of the corner of `e` that is nearest to `p` on
/// axis `k` and farthest from it on all other axes.
pub open spec fn corner_coordinate<P: Point>(e: AABB<P>, p: P, k: int, i: int) -> P::Scalar {
    let low = (lo(e, i) - coord(p, i)) * (lo(e, i) - coord(p, i));
    let high = (hi(e, i) - coord(p, i)) * (hi(e, i) - coord(p, i));
    if (i == k) == (low <= high) {
        e.lower_spec().nth_spec(i)
    } else {
        e.upper_spec().nth_spec(i)
    }
}

/// The point `p` with its first `n` coordinates replaced by those of the
/// corner of `e` that is nearest to `p` on axis `k` and farthest from it on
/// all other axes.
pub open spec fn corner_upto<P: Point>(e: AABB<P>, p: P, k: int, n: int) -> P
    decreases n,
{
    if n <= 0 {
        p
    } else {
        corner_upto(e, p, k, n - 1).with_nth_spec(n - 1, corner_coordinate(e, p, k, n - 1))
    }
}

/// The first `n` coordinates of [`corner_upto`] are those of the corner.
pub proof fn lemma_corner_upto<P: Point>(e: AABB<P>, p: P, k: int, n: int)
    requires
        0 <= n <= dims::<P>(),
    ensures
        forall|i: int|
            0 <= i < n ==> #[trigger] corner_upto(e, p, k, n).nth_spec(i) == corner_coordinate(e, p, k, i),
    decreases n,
{
    if n > 0 {
        lemma_corner_upto(e, p, k, n - 1);
        let before = corner_upto(e, p, k, n - 1);
        P::lemma_with_nth(before, n - 1, corner_coordinate(e, p, k, n - 1));
        assert forall|i: int| 0 <= i < n implies #[trigger] corner_upto(e, p, k, n).nth_spec(i)
            == corner_coordinate(e, p, k, i) by {
            if i < n - 1 {
                assert(before.nth_spec(i) == corner_coordinate(e, p, k, i));
            }
        }
    }
}

/// Over the first `n` axes, the distance to a corner is the sum that the
/// min-max distance is the smallest of.
pub proof fn lemma_corner_distance_upto<P: Point>(c: P, e: AABB<P>, p: P, k: int, n: int)
    requires
        is_min_max_corner(c, e, p, k),
        0 <= n <= dims::<P>(),
    ensures
        distance_2_upto(c, p, n) == min_max_candidate_upto(e, p, k, n),
    decreases n,
{
    if n > 0 {
        lemma_corner_distance_upto(c, e, p, k, n - 1);
        assert(coord(c, n - 1) == lo(e, n - 1) || coord(c, n - 1) == hi(e, n - 1));
    }
}

/// The min-max distance of a point to an envelope is the distance of the
/// point to a corner of the envelope: the one that is nearest on the axis
/// that is returned and farthest on all others, which [`corner_upto`] gives.
pub proof fn lemma_min_max_is_corner_distance<P: Point>(e: AABB<P>, p: P) -> (k: int)
    ensures
        0 <= k < dims::<P>(),
        envelope_min_max_dist_2(e, p) == min_max_candidate(e, p, k),
        forall|c: P| #[trigger]
            is_min_max_corner(c, e, p, k) ==> point_distance_2(c, p) == envelope_min_max_dist_2(e, p),
        is_min_max_corner(corner_upto(e, p, k, dims::<P>()), e, p, k),
        point_distance_2(corner_upto(e, p, k, dims::<P>()), p) == envelope_min_max_dist_2(e, p),
{
    P::lemma_dimensions();
    let k = crate::aabb::lemma_min_max_attained(e, p, dims::<P>());
    let corner = corner_upto(e, p, k, dims::<P>());
    lemma_corner_upto(e, p, k, dims::<P>());
    assert forall|i: int| 0 <= i < dims::<P>() implies {
        &&& #[trigger] coord(corner, i) == lo(e, i) || coord(corner, i) == hi(e, i)
        &&& (coord(corner, i) - coord(p, i)) * (coord(corner, i) - coord(p, i)) == if i == k {
            near_square(e, p, i)
        } else {
            far_square(e, p, i)
        }
    } by {
        assert(corner.nth_spec(i) == corner_coordinate(e, p, k, i));
    }
    lemma_corner_distance_upto(corner, e, p, k, dims::<P>());
    assert forall|c: P| #[trigger] is_min_max_corner(c, e, p, k) implies point_distance_2(c, p)
        == envelope_min_max_dist_2(e, p) by {
        lemma_corner_distance_upto(c, e, p, k, dims::<P>());
    }
    k
}

} // verus!
