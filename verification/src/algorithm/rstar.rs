//! Insertion by the r*-heuristic: choose a subtree, descend, and resolve an
//! overflow by reinsertion the first time a level overflows, by a split after
//! that.

use crate::aabb::{
    area_upto, center_coord, dims, envelope_area, envelope_contains, hi, intersection_area,
    intersection_area_upto, is_merged, lemma_area_nonnegative, lemma_saturated_sum, lo, max_int,
    min_int, shared_extent, AABB,
};
use crate::envelope::Envelope;
use crate::node::{
    all_coherent,
    bag_of,
    envelope_for_children,
    is_union_of,
    lemma_bag_concat,
    lemma_bag_empty,
    lemma_bag_permutation,
    lemma_bag_push,
    lemma_leaf_bag,
    lemma_bag_update,
    lemma_bounds_in_range,
    all_regular,
    lemma_child_height,
    lemma_coherent_parent,
    lemma_coherent_permutation,
    lemma_parent_coherent,
    lemma_regular_parts,
    lemma_regular_permutation,
    lemma_permutation_len,
    union_hi,
    union_lo,
    ParentNode,
    PointOf,
    RTreeNode,
    ScalarOf,
};
use crate::num::{lemma_product_sign, saturate, RTreeNum};
use crate::object::RTreeObject;
use crate::params::Params;
use crate::point::{coord, distance_2_upto, Point, PointExt};
use vstd::multiset::Multiset;
use vstd::prelude::*;

verus! {

/// Inserts objects according to the r*-heuristic, which pays for good
/// searches with slower insertion.
pub enum RStarInsertionStrategy {
    /// The only strategy there is.
    RStar,
}

/// What an insertion below a node leaves for the node's parent to do.
pub enum InsertionResult<T: RTreeObject> {
    /// The node was split: the new sibling is to be attached beside it.
    Split(RTreeNode<T>),
    /// The node gave up these children, which are to be inserted anew into
    /// nodes of the given depth.
    Reinsert(Vec<RTreeNode<T>>, usize),
    /// Nothing is left to do.
    Complete,
}

impl<T: RTreeObject> InsertionResult<T> {
    /// The objects that the result hands up.
    pub open spec fn bag(&self) -> Multiset<T> {
        match self {
            InsertionResult::Split(s) => s.bag(),
            InsertionResult::Reinsert(v, _) => bag_of(v@),
            InsertionResult::Complete => Multiset::empty(),
        }
    }

    /// The nodes that the result hands up are coherent.
    pub open spec fn coherent(&self) -> bool {
        match self {
            InsertionResult::Split(s) => s.coherent(),
            InsertionResult::Reinsert(v, _) => all_coherent(v@),
            InsertionResult::Complete => true,
        }
    }
}

/// The number of levels in `record` that have not reinserted yet.
pub open spec fn count_false(record: Seq<bool>) -> nat
    decreases record.len(),
{
    if record.len() == 0 {
        0
    } else {
        count_false(record.drop_last()) + if record.last() {
            0nat
        } else {
            1nat
        }
    }
}

/// Marking a level that has not reinserted leaves one level less.
pub proof fn lemma_count_false_mark(record: Seq<bool>, d: int)
    requires
        0 <= d < record.len(),
        !record[d],
    ensures
        count_false(record.update(d, true)) + 1 == count_false(record),
    decreases record.len(),
{
    if d == record.len() - 1 {
        assert(record.update(d, true).drop_last() =~= record.drop_last());
    } else {
        lemma_count_false_mark(record.drop_last(), d);
        assert(record.update(d, true).drop_last() =~= record.drop_last().update(d, true));
    }
}

/// A new level in front that counts as having reinserted changes nothing.
pub proof fn lemma_count_false_grow(record: Seq<bool>)
    ensures
        count_false(record.insert(0, true)) == count_false(record),
    decreases record.len(),
{
    if record.len() == 0 {
        assert(record.insert(0, true).drop_last() =~= record);
    } else {
        lemma_count_false_grow(record.drop_last());
        assert(record.insert(0, true).drop_last() =~= record.drop_last().insert(0, true));
    }
}

/// The lower bound of the envelope of `node` on `axis`.
pub open spec fn lower_key_spec<T: RTreeObject>(node: RTreeNode<T>, axis: usize) -> int {
    lo(node.bounds(), axis as int)
}

/// `nodes` are in the order of their lower bounds on `axis`.
pub open spec fn sorted_by_lower<T: RTreeObject>(nodes: Seq<RTreeNode<T>>, axis: usize) -> bool {
    forall|i: int, j: int|
        0 <= i <= j < nodes.len() ==> lower_key_spec(#[trigger] nodes[i], axis) <= lower_key_spec(
            #[trigger] nodes[j],
            axis,
        )
}

/// The squared distance of the center of `b` to `center`, over the first `n` axes.
pub open spec fn center_distance_upto<P: Point>(b: AABB<P>, center: P, n: int) -> int
    decreases n,
{
    if n <= 0 {
        0
    } else {
        center_distance_upto(b, center, n - 1) + (center_coord(b, n - 1) - coord(center, n - 1)) * (
        center_coord(b, n - 1) - coord(center, n - 1))
    }
}

/// The squared distance of the center of the envelope of `node` to `center`,
/// saturating.
pub open spec fn center_key_spec<T: RTreeObject>(node: RTreeNode<T>, center: PointOf<T>) -> int {
    saturate::<ScalarOf<T>>(center_distance_upto(node.bounds(), center, dims::<PointOf<T>>()))
}

/// `nodes` are in the order of the distances of their centers to `center`.
pub open spec fn sorted_by_center<T: RTreeObject>(
    nodes: Seq<RTreeNode<T>>,
    center: PointOf<T>,
) -> bool {
    forall|i: int, j: int|
        0 <= i <= j < nodes.len() ==> center_key_spec(#[trigger] nodes[i], center)
            <= center_key_spec(#[trigger] nodes[j], center)
}

/// The lower bound of the envelope of `node` on `axis`.
pub fn lower_key<T: RTreeObject>(node: &RTreeNode<T>, axis: usize) -> (r: i64)
    requires
        axis < PointOf::<T>::DIMENSIONS,
    ensures
        r == lower_key_spec(*node, axis),
{
    node.envelope().lower().nth(axis).to_i64()
}

/// The squared distance of the center of the envelope of `node` to `center`.
pub fn center_key<T: RTreeObject>(node: &RTreeNode<T>, center: &PointOf<T>) -> (r: i64)
    ensures
        r == center_key_spec(*node, *center),
{
    let c = node.envelope().center();
    proof {
        lemma_center_distance(node.bounds(), c, *center, dims::<PointOf<T>>());
    }
    c.distance_2(center).to_i64()
}

/// The distance of the center point of a box is the distance of its center.
pub proof fn lemma_center_distance<P: Point>(b: AABB<P>, c: P, center: P, n: int)
    requires
        n <= dims::<P>(),
        forall|i: int| 0 <= i < dims::<P>() ==> #[trigger] coord(c, i) == center_coord(b, i),
    ensures
        distance_2_upto(c, center, n) == center_distance_upto(b, center, n),
    decreases n,
{
    if n > 0 {
        lemma_center_distance(b, c, center, n - 1);
        assert(coord(c, n - 1) == center_coord(b, n - 1));
    }
}

/// The squared distance of the centers of `b` and `parent`, over the first `n` axes.
pub open spec fn center_gap_upto<P: Point>(b: AABB<P>, parent: AABB<P>, n: int) -> int
    decreases n,
{
    if n <= 0 {
        0
    } else {
        center_gap_upto(b, parent, n - 1) + (center_coord(b, n - 1) - center_coord(parent, n - 1))
            * (center_coord(b, n - 1) - center_coord(parent, n - 1))
    }
}

/// The squared distance of the center of the envelope of `node` to the center
/// of `parent`, saturating.
pub open spec fn center_gap<T: RTreeObject>(node: RTreeNode<T>, parent: AABB<PointOf<T>>) -> int {
    saturate::<ScalarOf<T>>(center_gap_upto(node.bounds(), parent, dims::<PointOf<T>>()))
}

/// `nodes` are in the order of the distances of their centers to the center
/// of `parent`.
pub open spec fn sorted_by_center_gap<T: RTreeObject>(
    nodes: Seq<RTreeNode<T>>,
    parent: AABB<PointOf<T>>,
) -> bool {
    forall|i: int, j: int|
        0 <= i <= j < nodes.len() ==> center_gap(#[trigger] nodes[i], parent) <= center_gap(
            #[trigger] nodes[j],
            parent,
        )
}

/// The distance of a center to the center point of a box is the distance of
/// the two centers.
pub proof fn lemma_center_gap<P: Point>(b: AABB<P>, parent: AABB<P>, center: P, n: int)
    requires
        n <= dims::<P>(),
        forall|i: int| 0 <= i < dims::<P>() ==> #[trigger] coord(center, i) == center_coord(parent, i),
    ensures
        center_distance_upto(b, center, n) == center_gap_upto(b, parent, n),
    decreases n,
{
    if n > 0 {
        lemma_center_gap(b, parent, center, n - 1);
        assert(coord(center, n - 1) == center_coord(parent, n - 1));
    }
}

/// Sorts `nodes` by the lower bounds of their envelopes on `axis`.
///
/// Calls `sort_by_key` of the standard library's slices. The contract claims
/// what its documentation states: the elements are rearranged, and come out in
/// the order of their keys.
#[verifier::external_body]
fn sort_envelopes<T: RTreeObject>(axis: usize, nodes: &mut Vec<RTreeNode<T>>)
    requires
        axis < PointOf::<T>::DIMENSIONS,
    ensures
        final(nodes)@.to_multiset() == old(nodes)@.to_multiset(),
        sorted_by_lower(final(nodes)@, axis),
{
    nodes.sort_by_key(|node| lower_key(node, axis));
}

/// Sorts `nodes` by the distance of the centers of their envelopes to `center`.
///
/// Calls `sort_unstable_by_key` of the standard library's slices. The contract
/// claims what its documentation states: the elements are rearranged, and come
/// out in the order of their keys.
#[verifier::external_body]
fn sort_by_center_distance<T: RTreeObject>(nodes: &mut Vec<RTreeNode<T>>, center: &PointOf<T>)
    ensures
        final(nodes)@.to_multiset() == old(nodes)@.to_multiset(),
        sorted_by_center(final(nodes)@, *center),
{
    nodes.sort_unstable_by_key(|node| center_key(node, center));
}

/// Takes from `node` the children whose centers are farthest from the node's
/// center, as many as the parameters say, and recomputes the envelope.
fn get_nodes_for_reinsertion<T: RTreeObject>(node: &mut ParentNode<T>, params: &Params) -> (r: Vec<
    RTreeNode<T>,
>)
    requires
        params.wf(),
        old(node).children@.len() > params.max_size_spec(),
        old(node).coherent(),
    ensures
        final(node).coherent(),
        all_coherent(r@),
        r@.len() == params.reinsertion_count_spec(),
        final(node).children@.len() + r@.len() == old(node).children@.len(),
        (final(node).children@ + r@).to_multiset() == old(node).children@.to_multiset(),
        sorted_by_center_gap(final(node).children@ + r@, old(node).envelope.bounds()),
        final(node).bag().add(bag_of(r@)) == old(node).bag(),
{
    let center = node.envelope.center();
    sort_by_center_distance(&mut node.children, &center);
    let ghost sorted = node.children@;
    let num_children = node.children.len();
    proof {
        lemma_permutation_len(old(node).children@, sorted);
        lemma_coherent_permutation(old(node).children@, sorted);
        lemma_bag_permutation(old(node).children@, sorted);
    }
    let result = node.children.split_off(num_children - params.reinsertion_count());
    node.envelope = envelope_for_children(node.children.as_slice());
    proof {
        assert(node.children@ + result@ =~= sorted);
        lemma_bag_concat(node.children@, result@);
        assert forall|i: int, j: int| 0 <= i <= j < sorted.len() implies center_gap(
            #[trigger] sorted[i],
            old(node).envelope.bounds(),
        ) <= center_gap(#[trigger] sorted[j], old(node).envelope.bounds()) by {
            lemma_center_gap(
                sorted[i].bounds(),
                old(node).envelope.bounds(),
                center,
                dims::<PointOf<T>>(),
            );
            lemma_center_gap(
                sorted[j].bounds(),
                old(node).envelope.bounds(),
                center,
                dims::<PointOf<T>>(),
            );
            assert(center_key_spec(sorted[i], center) <= center_key_spec(sorted[j], center));
        }
    }
    result
}

/// The envelope that a split gives to each half, by the smaller number of
/// the split: the halves are `nodes` before `k` and from `k` on.
fn halves<T: RTreeObject>(nodes: &Vec<RTreeNode<T>>, k: usize) -> (r: (T::Envelope, T::Envelope))
    requires
        k <= nodes@.len(),
    ensures
        is_union_of(r.0.bounds(), nodes@.subrange(0, k as int)),
        is_union_of(r.1.bounds(), nodes@.subrange(k as int, nodes@.len() as int)),
{
    let first = envelope_for_children(vstd::slice::slice_subrange(nodes.as_slice(), 0, k));
    let second = envelope_for_children(
        vstd::slice::slice_subrange(nodes.as_slice(), k, nodes.len()),
    );
    (first, second)
}

/// The extent on axis `i` of the union of the envelopes of `nodes`.
pub open spec fn run_extent<T: RTreeObject>(nodes: Seq<RTreeNode<T>>, i: int) -> int {
    max_int(union_hi(nodes, i) - union_lo(nodes, i), 0)
}

/// The sum of the extents of the union of the envelopes of `nodes`, on the
/// first `n` axes.
pub open spec fn run_perimeter_upto<T: RTreeObject>(nodes: Seq<RTreeNode<T>>, n: int) -> int
    decreases n,
{
    if n <= 0 {
        0
    } else {
        run_perimeter_upto(nodes, n - 1) + run_extent(nodes, n - 1)
    }
}

/// The area of the union of the envelopes of `nodes`, over the first `n` axes.
pub open spec fn run_area_upto<T: RTreeObject>(nodes: Seq<RTreeNode<T>>, n: int) -> int
    decreases n,
{
    if n <= 0 {
        1
    } else {
        run_area_upto(nodes, n - 1) * run_extent(nodes, n - 1)
    }
}

/// The extent on axis `i` of what the unions of the envelopes of `a` and of
/// `b` share.
pub open spec fn runs_shared_extent<T: RTreeObject>(
    a: Seq<RTreeNode<T>>,
    b: Seq<RTreeNode<T>>,
    i: int,
) -> int {
    max_int(
        min_int(union_hi(a, i), union_hi(b, i)) - max_int(union_lo(a, i), union_lo(b, i)),
        0,
    )
}

/// The area of what the unions of the envelopes of `a` and of `b` share, over
/// the first `n` axes.
pub open spec fn runs_shared_area_upto<T: RTreeObject>(
    a: Seq<RTreeNode<T>>,
    b: Seq<RTreeNode<T>>,
    n: int,
) -> int
    decreases n,
{
    if n <= 0 {
        1
    } else {
        runs_shared_area_upto(a, b, n - 1) * runs_shared_extent(a, b, n - 1)
    }
}

/// The measures of a box that is a union are the measures of the union.
pub proof fn lemma_run_measures<T: RTreeObject>(b: AABB<PointOf<T>>, nodes: Seq<RTreeNode<T>>, n: int)
    requires
        is_union_of(b, nodes),
        n <= dims::<PointOf<T>>(),
    ensures
        crate::aabb::perimeter_upto(b, n) == run_perimeter_upto(nodes, n),
        area_upto(b, n) == run_area_upto(nodes, n),
    decreases n,
{
    if n > 0 {
        lemma_run_measures(b, nodes, n - 1);
        assert(lo(b, n - 1) == union_lo(nodes, n - 1));
        assert(hi(b, n - 1) == union_hi(nodes, n - 1));
    }
}

/// What two boxes that are unions share is what the unions share.
pub proof fn lemma_runs_shared<T: RTreeObject>(
    b1: AABB<PointOf<T>>,
    nodes1: Seq<RTreeNode<T>>,
    b2: AABB<PointOf<T>>,
    nodes2: Seq<RTreeNode<T>>,
    n: int,
)
    requires
        is_union_of(b1, nodes1),
        is_union_of(b2, nodes2),
        n <= dims::<PointOf<T>>(),
    ensures
        intersection_area_upto(b1, b2, n) == runs_shared_area_upto(nodes1, nodes2, n),
    decreases n,
{
    if n > 0 {
        lemma_runs_shared(b1, nodes1, b2, nodes2, n - 1);
        assert(lo(b1, n - 1) == union_lo(nodes1, n - 1));
        assert(hi(b1, n - 1) == union_hi(nodes1, n - 1));
        assert(lo(b2, n - 1) == union_lo(nodes2, n - 1));
        assert(hi(b2, n - 1) == union_hi(nodes2, n - 1));
    }
}

/// How good a split of `nodes` before `k` is for choosing the axis: the sum
/// of the perimeters of the envelopes of the two halves, saturating.
pub open spec fn split_goodness<T: RTreeObject>(nodes: Seq<RTreeNode<T>>, k: int) -> int {
    saturate::<ScalarOf<T>>(
        saturate::<ScalarOf<T>>(
            run_perimeter_upto(nodes.subrange(0, k), dims::<PointOf<T>>()),
        ) + saturate::<ScalarOf<T>>(
            run_perimeter_upto(nodes.subrange(k, nodes.len() as int), dims::<PointOf<T>>()),
        ),
    )
}

/// The area that the envelopes of the two halves of a split of `nodes`
/// before `k` share, saturating.
pub open spec fn split_overlap<T: RTreeObject>(nodes: Seq<RTreeNode<T>>, k: int) -> int {
    saturate::<ScalarOf<T>>(
        runs_shared_area_upto(
            nodes.subrange(0, k),
            nodes.subrange(k, nodes.len() as int),
            dims::<PointOf<T>>(),
        ),
    )
}

/// The sum of the areas of the envelopes of the two halves of a split of
/// `nodes` before `k`, saturating.
pub open spec fn split_area<T: RTreeObject>(nodes: Seq<RTreeNode<T>>, k: int) -> int {
    saturate::<ScalarOf<T>>(
        saturate::<ScalarOf<T>>(run_area_upto(nodes.subrange(0, k), dims::<PointOf<T>>()))
            + saturate::<ScalarOf<T>>(
            run_area_upto(nodes.subrange(k, nodes.len() as int), dims::<PointOf<T>>()),
        ),
    )
}

/// Whether a split of `nodes` before `j` is better than one before `k`: its
/// halves share less, or as much and are smaller.
pub open spec fn split_better<T: RTreeObject>(nodes: Seq<RTreeNode<T>>, j: int, k: int) -> bool {
    split_overlap(nodes, j) < split_overlap(nodes, k) || (split_overlap(nodes, j) == split_overlap(
        nodes,
        k,
    ) && split_area(nodes, j) < split_area(nodes, k))
}

/// `k` is the best place to split `nodes`, among the places that leave each
/// half `min` nodes, and the first such.
pub open spec fn best_split<T: RTreeObject>(nodes: Seq<RTreeNode<T>>, min: int, k: int) -> bool {
    &&& min <= k <= nodes.len() - min
    &&& forall|j: int| min <= j <= nodes.len() - min ==> !#[trigger] split_better(nodes, j, k)
    &&& forall|j: int| min <= j < k ==> #[trigger] split_better(nodes, k, j)
}

/// The goodness of the split before `k` of the arrangement for `axis`.
pub open spec fn goodness_at<T: RTreeObject>(
    arrangements: Seq<Seq<RTreeNode<T>>>,
    axis: int,
    k: int,
) -> int {
    split_goodness(arrangements[axis], k)
}

/// `axis` is the axis of the split of smallest goodness among the splits, of
/// the arrangements for the axes below `axes`, that leave each half `min`
/// nodes of `len`: the first axis that has such a split. Where no split has a
/// goodness below the largest number, it is the first axis.
pub open spec fn best_axis<T: RTreeObject>(
    arrangements: Seq<Seq<RTreeNode<T>>>,
    axes: int,
    min: int,
    len: int,
    axis: int,
) -> bool {
    if exists|a: int, k: int|
        0 <= a < axes && min <= k <= len - min && #[trigger] goodness_at(arrangements, a, k)
            < ScalarOf::<T>::upper_limit() {
        &&& 0 <= axis < axes
        &&& exists|best: int|
            {
                &&& min <= best <= len - min
                &&& #[trigger] goodness_at(arrangements, axis, best) < ScalarOf::<T>::upper_limit()
                &&& forall|a: int, k: int|
                    0 <= a < axes && min <= k <= len - min ==> goodness_at(
                        arrangements,
                        axis,
                        best,
                    ) <= #[trigger] goodness_at(arrangements, a, k)
                &&& forall|a: int, k: int|
                    0 <= a < axis && min <= k <= len - min ==> goodness_at(
                        arrangements,
                        axis,
                        best,
                    ) < #[trigger] goodness_at(arrangements, a, k)
            }
    } else {
        axis == 0
    }
}

/// The axis along which a split of `node` has the smallest perimeters.
///
/// For every axis the children are sorted along it and every split that
/// leaves each half the least number of children is tried. The second result
/// is the arrangement that the sorting gave for each axis.
fn get_split_axis<T: RTreeObject>(node: &mut ParentNode<T>, params: &Params) -> (r: (
    usize,
    Ghost<Seq<Seq<RTreeNode<T>>>>,
))
    requires
        params.wf(),
        old(node).children@.len() > params.max_size_spec(),
    ensures
        r.0 < PointOf::<T>::DIMENSIONS,
        final(node).children@.to_multiset() == old(node).children@.to_multiset(),
        final(node).envelope == old(node).envelope,
        r.1@.len() == PointOf::<T>::DIMENSIONS,
        forall|a: int|
            0 <= a < r.1@.len() ==> (#[trigger] r.1@[a]).to_multiset() == old(
                node,
            ).children@.to_multiset() && sorted_by_lower(r.1@[a], a as usize),
        best_axis(
            r.1@,
            PointOf::<T>::DIMENSIONS as int,
            params.min_size_spec() as int,
            old(node).children@.len() as int,
            r.0 as int,
        ),
{
    let mut best_goodness = ScalarOf::<T>::max_value();
    let mut best_axis: usize = 0;
    let min_size = params.min_size();
    proof {
        PointOf::<T>::lemma_dimensions();
    }
    let len = node.children.len();
    let until = len - min_size + 1;
    let mut axis: usize = 0;
    let ghost mut arrangements: Seq<Seq<RTreeNode<T>>> = Seq::empty();
    let ghost mut best_k: int = 0;
    while axis < PointOf::<T>::DIMENSIONS
        invariant
            axis <= PointOf::<T>::DIMENSIONS,
            best_axis < PointOf::<T>::DIMENSIONS,
            params.wf(),
            min_size == params.min_size_spec(),
            len == old(node).children@.len(),
            node.children@.len() == len,
            len > params.max_size_spec(),
            until == len - min_size + 1,
            node.children@.to_multiset() == old(node).children@.to_multiset(),
            node.envelope == old(node).envelope,
            arrangements.len() == axis,
            forall|a: int|
                0 <= a < arrangements.len() ==> (#[trigger] arrangements[a]).to_multiset() == old(
                    node,
                ).children@.to_multiset() && sorted_by_lower(arrangements[a], a as usize),
            best_goodness.value() <= ScalarOf::<T>::upper_limit(),
            forall|a: int, k: int|
                0 <= a < axis && min_size <= k <= len - min_size ==> best_goodness.value()
                    <= #[trigger] goodness_at(arrangements, a, k),
            best_goodness.value() < ScalarOf::<T>::upper_limit() ==> {
                &&& best_axis < axis
                &&& min_size <= best_k <= len - min_size
                &&& goodness_at(arrangements, best_axis as int, best_k) == best_goodness.value()
                &&& forall|a: int, k: int|
                    0 <= a < best_axis && min_size <= k <= len - min_size ==> best_goodness.value()
                        < #[trigger] goodness_at(arrangements, a, k)
            },
            best_goodness.value() == ScalarOf::<T>::upper_limit() ==> best_axis == 0,
        decreases PointOf::<T>::DIMENSIONS - axis,
    {
        let ghost before = node.children@;
        sort_envelopes(axis, &mut node.children);
        let ghost sorted = node.children@;
        let ghost earlier = arrangements;
        proof {
            lemma_permutation_len(before, node.children@);
            arrangements = arrangements.push(sorted);
            assert forall|a: int, k: int|
                0 <= a < axis && min_size <= k <= len - min_size implies goodness_at(
                arrangements,
                a,
                k,
            ) == goodness_at(earlier, a, k) by {
                assert(arrangements[a] == earlier[a]);
            }
            assert forall|a: int|
                0 <= a < arrangements.len() implies (#[trigger] arrangements[a]).to_multiset() == old(
                node,
            ).children@.to_multiset() && sorted_by_lower(arrangements[a], a as usize) by {
                if a < axis {
                    assert(arrangements[a] == earlier[a]);
                }
            }
            if best_goodness.value() < ScalarOf::<T>::upper_limit() {
                assert(goodness_at(arrangements, best_axis as int, best_k) == goodness_at(
                    earlier,
                    best_axis as int,
                    best_k,
                ));
                assert forall|a: int, k: int|
                    0 <= a < best_axis && min_size <= k <= len - min_size implies best_goodness.value()
                    < #[trigger] goodness_at(arrangements, a, k) by {
                    assert(goodness_at(earlier, a, k) == goodness_at(arrangements, a, k));
                }
            }
            assert forall|a: int, k: int|
                0 <= a < axis && min_size <= k <= len - min_size implies best_goodness.value()
                <= #[trigger] goodness_at(arrangements, a, k) by {
                assert(goodness_at(earlier, a, k) == goodness_at(arrangements, a, k));
            }
        }
        let mut k = min_size;
        while k < until
            invariant
                min_size <= k <= until,
                until == len - min_size + 1,
                node.children@ == sorted,
                node.children@.len() == len,
                min_size >= 1,
                arrangements.len() == axis + 1,
                arrangements[axis as int] == sorted,
                best_axis < PointOf::<T>::DIMENSIONS,
                axis < PointOf::<T>::DIMENSIONS,
                best_goodness.value() <= ScalarOf::<T>::upper_limit(),
                forall|a: int, j: int|
                    0 <= a < axis && min_size <= j <= len - min_size ==> best_goodness.value()
                        <= #[trigger] goodness_at(arrangements, a, j),
                forall|j: int|
                    min_size <= j < k ==> best_goodness.value() <= #[trigger] goodness_at(
                        arrangements,
                        axis as int,
                        j,
                    ),
                best_goodness.value() < ScalarOf::<T>::upper_limit() ==> {
                    &&& best_axis <= axis
                    &&& min_size <= best_k <= len - min_size
                    &&& goodness_at(arrangements, best_axis as int, best_k) == best_goodness.value()
                    &&& forall|a: int, j: int|
                        0 <= a < best_axis && min_size <= j <= len - min_size
                            ==> best_goodness.value() < #[trigger] goodness_at(arrangements, a, j)
                },
                best_goodness.value() == ScalarOf::<T>::upper_limit() ==> best_axis == 0,
            decreases until - k,
        {
            let (first, second) = halves(&node.children, k);
            let perimeter_value = first.perimeter_value().add(second.perimeter_value());
            proof {
                lemma_run_measures::<T>(
                    first.bounds(),
                    sorted.subrange(0, k as int),
                    dims::<PointOf<T>>(),
                );
                lemma_run_measures::<T>(
                    second.bounds(),
                    sorted.subrange(k as int, sorted.len() as int),
                    dims::<PointOf<T>>(),
                );
                ScalarOf::<T>::lemma_limits(perimeter_value);
                assert(perimeter_value.value() == goodness_at(arrangements, axis as int, k as int));
            }
            if perimeter_value.less(best_goodness) {
                best_axis = axis;
                best_goodness = perimeter_value;
                proof {
                    best_k = k as int;
                }
            }
            k = k + 1;
        }
        axis = axis + 1;
    }
    proof {
        let axes = PointOf::<T>::DIMENSIONS as int;
        let min = min_size as int;
        let limit = ScalarOf::<T>::upper_limit();
        if exists|a: int, k: int|
            0 <= a < axes && min <= k <= len - min && #[trigger] goodness_at(arrangements, a, k)
                < limit {
            let (a, k) = choose|a: int, k: int|
                0 <= a < axes && min <= k <= len - min && #[trigger] goodness_at(arrangements, a, k)
                    < limit;
            assert(best_goodness.value() <= goodness_at(arrangements, a, k));
            assert(goodness_at(arrangements, best_axis as int, best_k) < limit);
        } else {
            if best_goodness.value() < limit {
                assert(goodness_at(arrangements, best_axis as int, best_k) < limit);
            }
        }
    }
    (best_axis, Ghost(arrangements))
}

/// Whether the pair `(a1, a2)` comes before `(b1, b2)`.
fn pair_less<S: RTreeNum>(a1: S, a2: S, b1: S, b2: S) -> (r: bool)
    ensures
        r == (a1.value() < b1.value() || (a1.value() == b1.value() && a2.value() < b2.value())),
{
    a1.less(b1) || (!b1.less(a1) && a2.less(b2))
}

/// Whether the triple `(a1, a2, a3)` comes before `(b1, b2, b3)`.
fn triple_less<S: RTreeNum>(a1: S, a2: S, a3: S, b1: S, b2: S, b3: S) -> (r: bool)
    ensures
        r == (a1.value() < b1.value() || (a1.value() == b1.value() && (a2.value() < b2.value() || (
        a2.value() == b2.value() && a3.value() < b3.value())))),
{
    a1.less(b1) || (!b1.less(a1) && (a2.less(b2) || (!b2.less(a2) && a3.less(b3))))
}

/// Splits the overflowing `node` in two: sorts its children along the best
/// axis, keeps those before the best index and returns a new parent of the
/// others.
///
/// The best axis is that of [`get_split_axis`]. The best index is the one
/// whose halves share the least area and, among those, have the least area.
fn split<T: RTreeObject>(node: &mut ParentNode<T>, params: &Params) -> (r: RTreeNode<T>)
    requires
        params.wf(),
        old(node).children@.len() > params.max_size_spec(),
        old(node).coherent(),
    ensures
        final(node).coherent(),
        r is Parent,
        r.coherent(),
        final(node).bag().add(r.bag()) == old(node).bag(),
        final(node).children@.len() >= params.min_size_spec(),
        r->Parent_0.children@.len() >= params.min_size_spec(),
        final(node).children@.len() + r->Parent_0.children@.len() == old(node).children@.len(),
        (final(node).children@ + r->Parent_0.children@).to_multiset() == old(
            node,
        ).children@.to_multiset(),
        exists|axis: usize, arrangements: Seq<Seq<RTreeNode<T>>>|
            {
                &&& axis < PointOf::<T>::DIMENSIONS
                &&& #[trigger] best_axis(
                    arrangements,
                    PointOf::<T>::DIMENSIONS as int,
                    params.min_size_spec() as int,
                    old(node).children@.len() as int,
                    axis as int,
                )
                &&& arrangements.len() == PointOf::<T>::DIMENSIONS
                &&& forall|a: int|
                    0 <= a < arrangements.len() ==> (#[trigger] arrangements[a]).to_multiset() == old(
                        node,
                    ).children@.to_multiset() && sorted_by_lower(arrangements[a], a as usize)
                &&& sorted_by_lower(final(node).children@ + r->Parent_0.children@, axis)
            },
        best_split(
            final(node).children@ + r->Parent_0.children@,
            params.min_size_spec() as int,
            final(node).children@.len() as int,
        ),
{
    let (axis, Ghost(arrangements)) = get_split_axis(node, params);
    let ghost unsorted = node.children@;
    sort_envelopes(axis, &mut node.children);
    let ghost sorted = node.children@;
    proof {
        lemma_permutation_len(old(node).children@, unsorted);
        lemma_permutation_len(unsorted, sorted);
        lemma_coherent_permutation(old(node).children@, sorted);
        lemma_bag_permutation(old(node).children@, sorted);
    }
    let zero = ScalarOf::<T>::zero();
    let mut best = (zero, zero);
    let min_size = params.min_size();
    let mut best_index = min_size;
    let len = node.children.len();
    let mut k = min_size;
    while k <= len - min_size
        invariant
            node.children@ == sorted,
            len == sorted.len(),
            min_size == params.min_size_spec(),
            params.wf(),
            len > params.max_size_spec(),
            min_size <= k <= len - min_size + 1,
            min_size <= best_index <= len - min_size,
            k > min_size ==> {
                &&& best_index < k
                &&& best.0.value() == split_overlap(sorted, best_index as int)
                &&& best.1.value() == split_area(sorted, best_index as int)
                &&& forall|j: int|
                    min_size <= j < k ==> !#[trigger] split_better(sorted, j, best_index as int)
                &&& forall|j: int|
                    min_size <= j < best_index ==> #[trigger] split_better(
                        sorted,
                        best_index as int,
                        j,
                    )
            },
        decreases len - min_size + 1 - k,
    {
        let (first, second) = halves(&node.children, k);
        let overlap_value = first.intersection_area(&second);
        let area_value = first.area().add(second.area());
        proof {
            let a = sorted.subrange(0, k as int);
            let b = sorted.subrange(k as int, sorted.len() as int);
            lemma_run_measures::<T>(first.bounds(), a, dims::<PointOf<T>>());
            lemma_run_measures::<T>(second.bounds(), b, dims::<PointOf<T>>());
            lemma_runs_shared::<T>(first.bounds(), a, second.bounds(), b, dims::<PointOf<T>>());
            assert(overlap_value.value() == split_overlap(sorted, k as int));
            assert(area_value.value() == split_area(sorted, k as int));
        }
        if pair_less(overlap_value, area_value, best.0, best.1) || k == min_size {
            proof {
                if k > min_size {
                    assert(split_better(sorted, k as int, best_index as int));
                    assert forall|j: int| min_size <= j < k + 1 implies !#[trigger] split_better(
                        sorted,
                        j,
                        k as int,
                    ) by {
                        if j < k {
                            assert(!split_better(sorted, j, best_index as int));
                        }
                    }
                    assert forall|j: int| min_size <= j < k implies #[trigger] split_better(
                        sorted,
                        k as int,
                        j,
                    ) by {
                        assert(!split_better(sorted, j, best_index as int));
                    }
                }
            }
            best = (overlap_value, area_value);
            best_index = k;
        } else {
            proof {
                assert(!split_better(sorted, k as int, best_index as int));
            }
        }
        k = k + 1;
    }
    let off_split = node.children.split_off(best_index);
    node.envelope = envelope_for_children(node.children.as_slice());
    let sibling = ParentNode::new_parent(off_split);
    proof {
        assert(node.children@ + sibling.children@ =~= sorted);
        lemma_bag_concat(node.children@, sibling.children@);
        assert(best_axis(
            arrangements,
            PointOf::<T>::DIMENSIONS as int,
            params.min_size_spec() as int,
            old(node).children@.len() as int,
            axis as int,
        ));
    }
    RTreeNode::Parent(sibling)
}

/// How the children of a node that was relieved of an overflow relate to
/// the children it had.
///
/// A node that does not overflow keeps its children. A node that is split
/// shares them with its new sibling, each getting at least the least number.
/// A node that gives up children for reinsertion gives up those whose centers
/// are farthest from its own, and keeps the others.
pub open spec fn relieved<T: RTreeObject>(
    before: ParentNode<T>,
    after: ParentNode<T>,
    res: InsertionResult<T>,
    params: Params,
) -> bool {
    match res {
        InsertionResult::Complete => {
            &&& after.children@ == before.children@
            &&& after.children@.len() <= params.max_size_spec()
        },
        InsertionResult::Split(s) => {
            &&& s is Parent
            &&& before.children@.len() > params.max_size_spec()
            &&& (after.children@ + s->Parent_0.children@).to_multiset()
                == before.children@.to_multiset()
            &&& after.children@.len() >= params.min_size_spec()
            &&& s->Parent_0.children@.len() >= params.min_size_spec()
            &&& after.children@.len() + s->Parent_0.children@.len() == before.children@.len()
        },
        InsertionResult::Reinsert(v, _) => {
            &&& before.children@.len() > params.max_size_spec()
            &&& (after.children@ + v@).to_multiset() == before.children@.to_multiset()
            &&& sorted_by_center_gap(after.children@ + v@, before.envelope.bounds())
            &&& v@.len() == params.reinsertion_count_spec()
            &&& v@.len() >= 1
            &&& after.children@.len() + v@.len() == before.children@.len()
        },
    }
}

/// What an insertion below a regular node leaves regular: the node, with at
/// least the children it had or the least number, the sibling that a split
/// gave, and the nodes that wait for reinsertion, at the depth they came from.
pub open spec fn stays_regular<T: RTreeObject>(
    before: ParentNode<T>,
    after: ParentNode<T>,
    res: InsertionResult<T>,
    depth_of_node: int,
    depth: nat,
    lo: int,
    hi: int,
) -> bool {
    &&& after.regular_root(depth, lo, hi)
    &&& after.children@.len() >= 1
    &&& before.children@.len() >= lo ==> after.children@.len() >= lo
    &&& match res {
        InsertionResult::Split(s) => s.regular(depth, lo, hi) && after.children@.len() >= lo,
        InsertionResult::Reinsert(v, c) => {
            &&& depth_of_node <= c < depth_of_node + depth
            &&& all_regular(v@, (depth - 1 - (c - depth_of_node)) as nat, lo, hi)
        },
        InsertionResult::Complete => true,
    }
}

/// A node whose children are regular stays regular where it is relieved of
/// an overflow.
pub proof fn lemma_relieved_regular<T: RTreeObject>(
    before: ParentNode<T>,
    after: ParentNode<T>,
    res: InsertionResult<T>,
    params: Params,
    depth_of_node: int,
    depth: nat,
    lo: int,
    hi: int,
)
    requires
        params.wf(),
        relieved(before, after, res, params),
        res is Reinsert ==> res->Reinsert_1 == depth_of_node,
        depth >= 1,
        1 <= lo <= params.min_size_spec(),
        params.max_size_spec() <= hi,
        before.children@.len() <= hi + 1,
        before.children@.len() >= 1,
        all_regular(before.children@, (depth - 1) as nat, lo, hi),
    ensures
        after.regular_root(depth, lo, hi),
        after.children@.len() >= 1,
        res is Complete ==> after.children@.len() == before.children@.len(),
        !(res is Complete) ==> after.children@.len() >= lo,
        res is Split ==> res->Split_0.regular(depth, lo, hi),
        res is Reinsert ==> all_regular(res->Reinsert_0@, (depth - 1) as nat, lo, hi),
{
    match res {
        InsertionResult::Complete => {},
        InsertionResult::Split(s) => {
            let second = s->Parent_0.children@;
            lemma_regular_permutation(
                before.children@,
                after.children@ + second,
                (depth - 1) as nat,
                lo,
                hi,
            );
            lemma_regular_parts(after.children@, second, (depth - 1) as nat, lo, hi);
        },
        InsertionResult::Reinsert(v, _) => {
            lemma_regular_permutation(
                before.children@,
                after.children@ + v@,
                (depth - 1) as nat,
                lo,
                hi,
            );
            lemma_regular_parts(after.children@, v@, (depth - 1) as nat, lo, hi);
        },
    }
}

/// A node at `current_depth` gives up children for reinsertion: it overflows,
/// the parameters ask for reinsertion, and its level has not reinserted yet
/// during this insertion.
pub open spec fn reinserts<T: RTreeObject>(
    node: ParentNode<T>,
    current_depth: int,
    reinserted: Seq<bool>,
    params: Params,
) -> bool {
    &&& node.children@.len() > params.max_size_spec()
    &&& params.reinsertion_count_spec() > 0
    &&& 0 <= current_depth < reinserted.len()
    &&& !reinserted[current_depth]
}

/// Relieves `node` where it overflows: by reinsertion where its level has not
/// reinserted yet during this insertion, by a split where it has.
fn resolve_overflow<T: RTreeObject>(
    node: &mut ParentNode<T>,
    current_depth: usize,
    reinserted: &mut Vec<bool>,
    params: &Params,
) -> (res: InsertionResult<T>)
    requires
        params.wf(),
        old(node).coherent(),
    ensures
        final(node).coherent(),
        res.coherent(),
        final(node).bag().add(res.bag()) == old(node).bag(),
        res is Split ==> res->Split_0 is Parent,
        res is Reinsert ==> {
            &&& res->Reinsert_1 == current_depth
            &&& current_depth < old(reinserted)@.len()
            &&& !old(reinserted)@[current_depth as int]
            &&& final(reinserted)@ == old(reinserted)@.update(current_depth as int, true)
            &&& res->Reinsert_0@.len() == params.reinsertion_count_spec()
            &&& res->Reinsert_0@.len() > 0
        },
        !(res is Reinsert) ==> final(reinserted)@ == old(reinserted)@,
        relieved(*old(node), *final(node), res, *params),
        res is Reinsert <==> reinserts(*old(node), current_depth as int, old(reinserted)@, *params),
{
    if node.children.len() > params.max_size() {
        if params.reinsertion_count() > 0 && current_depth < reinserted.len()
            && !reinserted[current_depth] {
            reinserted[current_depth] = true;
            let nodes_for_reinsertion = get_nodes_for_reinsertion(node, params);
            InsertionResult::Reinsert(nodes_for_reinsertion, current_depth)
        } else {
            let off_split = split(node, params);
            InsertionResult::Split(off_split)
        }
    } else {
        assert(node.bag().add(Multiset::empty()) =~= node.bag());
        InsertionResult::Complete
    }
}


/// The extent on axis `i` of the smallest box that holds `a` and `e`.
pub open spec fn merged_extent<P: Point>(a: AABB<P>, e: AABB<P>, i: int) -> int {
    max_int(max_int(hi(a, i), hi(e, i)) - min_int(lo(a, i), lo(e, i)), 0)
}

/// The area of the smallest box that holds `a` and `e`, over the first `n` axes.
pub open spec fn merged_area_upto<P: Point>(a: AABB<P>, e: AABB<P>, n: int) -> int
    decreases n,
{
    if n <= 0 {
        1
    } else {
        merged_area_upto(a, e, n - 1) * merged_extent(a, e, n - 1)
    }
}

/// On axis `i`, the extent of what the smallest box that holds `a` and `e`
/// shares with `c`.
pub open spec fn merged_shared_extent<P: Point>(a: AABB<P>, e: AABB<P>, c: AABB<P>, i: int) -> int {
    max_int(
        min_int(max_int(hi(a, i), hi(e, i)), hi(c, i)) - max_int(
            min_int(lo(a, i), lo(e, i)),
            lo(c, i),
        ),
        0,
    )
}

/// The area of what the smallest box that holds `a` and `e` shares with `c`,
/// over the first `n` axes.
pub open spec fn merged_shared_area_upto<P: Point>(
    a: AABB<P>,
    e: AABB<P>,
    c: AABB<P>,
    n: int,
) -> int
    decreases n,
{
    if n <= 0 {
        1
    } else {
        merged_shared_area_upto(a, e, c, n - 1) * merged_shared_extent(a, e, c, n - 1)
    }
}

/// The area of a merged box is the merged area.
pub proof fn lemma_merged_area<P: Point>(m: AABB<P>, a: AABB<P>, e: AABB<P>, n: int)
    requires
        n <= dims::<P>(),
        is_merged(m, a, e),
    ensures
        area_upto(m, n) == merged_area_upto(a, e, n),
    decreases n,
{
    if n > 0 {
        lemma_merged_area(m, a, e, n - 1);
        assert(lo(m, n - 1) == min_int(lo(a, n - 1), lo(e, n - 1)));
        assert(hi(m, n - 1) == max_int(hi(a, n - 1), hi(e, n - 1)));
    }
}

/// What a merged box shares with another is the merged shared area.
pub proof fn lemma_merged_shared_area<P: Point>(
    m: AABB<P>,
    a: AABB<P>,
    e: AABB<P>,
    c: AABB<P>,
    n: int,
)
    requires
        n <= dims::<P>(),
        is_merged(m, a, e),
    ensures
        intersection_area_upto(m, c, n) == merged_shared_area_upto(a, e, c, n),
    decreases n,
{
    if n > 0 {
        lemma_merged_shared_area(m, a, e, c, n - 1);
        assert(lo(m, n - 1) == min_int(lo(a, n - 1), lo(e, n - 1)));
        assert(hi(m, n - 1) == max_int(hi(a, n - 1), hi(e, n - 1)));
    }
}

/// The area that two boxes share is not negative.
pub proof fn lemma_shared_area_nonnegative<P: Point>(a: AABB<P>, b: AABB<P>, n: int)
    ensures
        intersection_area_upto(a, b, n) >= 0,
    decreases n,
{
    if n > 0 {
        lemma_shared_area_nonnegative(a, b, n - 1);
        lemma_product_sign(intersection_area_upto(a, b, n - 1), shared_extent(a, b, n - 1));
    }
}

/// The area of the envelope of the node at `k`, saturating.
pub open spec fn area_at<T: RTreeObject>(nodes: Seq<RTreeNode<T>>, k: int) -> int {
    saturate::<ScalarOf<T>>(envelope_area(nodes[k].bounds()))
}

/// Whether the envelope of the node at `k` contains `e`.
pub open spec fn contains_at<T: RTreeObject>(
    nodes: Seq<RTreeNode<T>>,
    k: int,
    e: AABB<PointOf<T>>,
) -> bool {
    envelope_contains(nodes[k].bounds(), e)
}

/// The area that the envelope of the node at `k` has once it holds `e` too,
/// saturating.
pub open spec fn enlarged_area_at<T: RTreeObject>(
    nodes: Seq<RTreeNode<T>>,
    k: int,
    e: AABB<PointOf<T>>,
) -> int {
    saturate::<ScalarOf<T>>(merged_area_upto(nodes[k].bounds(), e, dims::<PointOf<T>>()))
}

/// The sum of the areas that the envelope of the node at `k` shares with the
/// envelopes of the other nodes before `n`.
pub open spec fn overlap_upto<T: RTreeObject>(nodes: Seq<RTreeNode<T>>, k: int, n: int) -> int
    decreases n,
{
    if n <= 0 {
        0
    } else {
        overlap_upto(nodes, k, n - 1) + if n - 1 == k {
            0
        } else {
            intersection_area(nodes[k].bounds(), nodes[n - 1].bounds())
        }
    }
}

/// The sum of the areas that the envelope of the node at `k`, once it holds
/// `e` too, shares with the envelopes of the other nodes before `n`.
pub open spec fn enlarged_overlap_upto<T: RTreeObject>(
    nodes: Seq<RTreeNode<T>>,
    k: int,
    e: AABB<PointOf<T>>,
    n: int,
) -> int
    decreases n,
{
    if n <= 0 {
        0
    } else {
        enlarged_overlap_upto(nodes, k, e, n - 1) + if n - 1 == k {
            0
        } else {
            merged_shared_area_upto(nodes[k].bounds(), e, nodes[n - 1].bounds(), dims::<PointOf<T>>())
        }
    }
}

/// The overlap of a node with the nodes beside it is not negative.
pub proof fn lemma_overlap_nonnegative<T: RTreeObject>(nodes: Seq<RTreeNode<T>>, k: int, n: int)
    ensures
        overlap_upto(nodes, k, n) >= 0,
    decreases n,
{
    if n > 0 {
        lemma_overlap_nonnegative(nodes, k, n - 1);
        lemma_shared_area_nonnegative(nodes[k].bounds(), nodes[n - 1].bounds(), dims::<PointOf<T>>());
    }
}

/// The area that a box shares with the union of two boxes is not negative.
pub proof fn lemma_merged_shared_nonnegative<P: Point>(a: AABB<P>, e: AABB<P>, c: AABB<P>, n: int)
    ensures
        merged_shared_area_upto(a, e, c, n) >= 0,
    decreases n,
{
    if n > 0 {
        lemma_merged_shared_nonnegative(a, e, c, n - 1);
        lemma_product_sign(merged_shared_area_upto(a, e, c, n - 1), merged_shared_extent(a, e, c, n - 1));
    }
}

/// The overlap of an enlarged node with the nodes beside it is not negative.
pub proof fn lemma_enlarged_overlap_nonnegative<T: RTreeObject>(
    nodes: Seq<RTreeNode<T>>,
    k: int,
    e: AABB<PointOf<T>>,
    n: int,
)
    ensures
        enlarged_overlap_upto(nodes, k, e, n) >= 0,
    decreases n,
{
    if n > 0 {
        lemma_enlarged_overlap_nonnegative(nodes, k, e, n - 1);
        lemma_merged_shared_nonnegative(
            nodes[k].bounds(),
            e,
            nodes[n - 1].bounds(),
            dims::<PointOf<T>>(),
        );
    }
}

/// By how much the overlap of the node at `k` with the other nodes grows once
/// its envelope holds `e` too; zero where the overlap is not looked at.
pub open spec fn overlap_increase_at<T: RTreeObject>(
    nodes: Seq<RTreeNode<T>>,
    k: int,
    e: AABB<PointOf<T>>,
    with_overlap: bool,
) -> int {
    if with_overlap {
        saturate::<ScalarOf<T>>(enlarged_overlap_upto(nodes, k, e, nodes.len() as int)) - saturate::<
            ScalarOf<T>,
        >(overlap_upto(nodes, k, nodes.len() as int))
    } else {
        0
    }
}

/// By how much the area of the node at `k` grows once its envelope holds `e`
/// too.
pub open spec fn area_increase_at<T: RTreeObject>(
    nodes: Seq<RTreeNode<T>>,
    k: int,
    e: AABB<PointOf<T>>,
) -> int {
    enlarged_area_at(nodes, k, e) - area_at(nodes, k)
}

/// Whether the node at `j` is a better choice than the node at `k` for an
/// envelope `e` that none contains: by the growth of its overlap, then by the
/// growth of its area, then by its area.
pub open spec fn better_at<T: RTreeObject>(
    nodes: Seq<RTreeNode<T>>,
    j: int,
    k: int,
    e: AABB<PointOf<T>>,
    with_overlap: bool,
) -> bool {
    let oj = overlap_increase_at(nodes, j, e, with_overlap);
    let ok = overlap_increase_at(nodes, k, e, with_overlap);
    let ij = area_increase_at(nodes, j, e);
    let ik = area_increase_at(nodes, k, e);
    oj < ok || (oj == ok && (ij < ik || (ij == ik && enlarged_area_at(nodes, j, e)
        < enlarged_area_at(nodes, k, e))))
}

/// Whether the children of the children of `node` are leaves.
pub open spec fn grandchildren_are_leaves<T: RTreeObject>(node: ParentNode<T>) -> bool {
    &&& node.children@.len() > 0
    &&& node.children@[0] is Parent
    &&& (node.children@[0]->Parent_0.children@.len() == 0
        || node.children@[0]->Parent_0.children@[0] is Leaf)
}

/// `r` is the child of least area among those of the first `n` children
/// whose envelope contains `e`, the first of them; the first child where
/// there is none.
pub open spec fn smallest_container<T: RTreeObject>(
    nodes: Seq<RTreeNode<T>>,
    e: AABB<PointOf<T>>,
    n: int,
    r: int,
) -> bool {
    if exists|j: int| 0 <= j < n && #[trigger] contains_at(nodes, j, e) {
        &&& 0 <= r < n
        &&& contains_at(nodes, r, e)
        &&& forall|j: int|
            0 <= j < n && #[trigger] contains_at(nodes, j, e) ==> area_at(nodes, r) <= area_at(
                nodes,
                j,
            )
        &&& forall|j: int|
            0 <= j < r && #[trigger] contains_at(nodes, j, e) ==> area_at(nodes, r) < area_at(
                nodes,
                j,
            )
    } else {
        r == 0
    }
}

/// `r` is the best choice among the first `n` children for an envelope that
/// none contains, and the first such.
pub open spec fn least_enlargement<T: RTreeObject>(
    nodes: Seq<RTreeNode<T>>,
    e: AABB<PointOf<T>>,
    with_overlap: bool,
    n: int,
    r: int,
) -> bool {
    &&& 0 <= r < n
    &&& forall|j: int| 0 <= j < n ==> !#[trigger] better_at(nodes, j, r, e, with_overlap)
    &&& forall|j: int| 0 <= j < r ==> #[trigger] better_at(nodes, r, j, e, with_overlap)
}

/// `r` is the child of `node` into which an insertion of an envelope `e`
/// descends.
///
/// Where `node` has no children or its children are leaves, there is none, and
/// `r` is the largest index: the insertion ends here. Otherwise `r` is, among
/// the children whose envelope contains `e`, the one of least area; where
/// none contains it, the child that is enlarged least, by overlap (where the
/// grandchildren are leaves), growth and area.
pub open spec fn is_choice<T: RTreeObject>(node: ParentNode<T>, e: AABB<PointOf<T>>, r: int) -> bool {
    if node.children@.len() == 0 || node.children@[0] is Leaf {
        r == usize::MAX
    } else {
        &&& 0 <= r < node.children@.len()
        &&& (exists|j: int| 0 <= j < node.children@.len() && #[trigger] contains_at(node.children@, j, e))
            ==> smallest_container(node.children@, e, node.children@.len() as int, r)
        &&& !(exists|j: int|
            0 <= j < node.children@.len() && #[trigger] contains_at(node.children@, j, e))
            ==> least_enlargement(
            node.children@,
            e,
            grandchildren_are_leaves(node),
            node.children@.len() as int,
            r,
        )
    }
}

/// An insertion that descends into the child `c` of `node` ends at `node`:
/// there is no such child, or it is a leaf.
pub open spec fn ends_at<T: RTreeObject>(node: ParentNode<T>, c: int) -> bool {
    !(0 <= c < node.children@.len() && node.children@[c] is Parent)
}

/// On the way that an insertion of an envelope `e` takes from `node` down, the
/// node at which it ends has fewer than `max_size` children: the insertion
/// makes no node overflow.
pub open spec fn descent_fits<T: RTreeObject>(
    node: RTreeNode<T>,
    e: AABB<PointOf<T>>,
    max_size: int,
) -> bool
    decreases node,
{
    match node {
        RTreeNode::Leaf(_) => true,
        RTreeNode::Parent(p) => forall|c: int| #[trigger]
            is_choice(p, e, c) ==> if ends_at(p, c) {
                p.children@.len() < max_size
            } else {
                descent_fits(p.children@[c], e, max_size)
            },
    }
}

/// `after` is `before` with the leaf `t` put in where an insertion that
/// makes no node overflow puts it: at the end of the children of the node
/// that the way of the chosen children leads to. The nodes beside the way
/// are as they were.
pub open spec fn placed_in<T: RTreeObject>(
    before: RTreeNode<T>,
    after: RTreeNode<T>,
    t: RTreeNode<T>,
) -> bool
    decreases before,
{
    match before {
        RTreeNode::Leaf(_) => false,
        RTreeNode::Parent(b) => after is Parent && exists|c: int| #[trigger]
            is_choice(b, t.bounds(), c) && if ends_at(b, c) {
                after->Parent_0.children@ == b.children@.push(t)
            } else {
                &&& after->Parent_0.children@.len() == b.children@.len()
                &&& forall|k: int|
                    0 <= k < b.children@.len() && k != c ==> #[trigger] after->Parent_0.children@[k]
                        == b.children@[k]
                &&& placed_in(b.children@[c], after->Parent_0.children@[c], t)
            },
    }
}

/// The child of `node` into which an insertion of `to_insert` descends, as
/// [`is_choice`] says; the largest index where the insertion ends at `node`.
pub fn choose_subtree<T: RTreeObject>(node: &ParentNode<T>, to_insert: &RTreeNode<T>) -> (r: usize)
    ensures
        is_choice(*node, to_insert.bounds(), r as int),
{
    if node.children.len() == 0 {
        return usize::MAX;
    }
    let all_leaves = match &node.children[0] {
        RTreeNode::Leaf(_) => {
            return usize::MAX;
        },
        RTreeNode::Parent(data) => {
            if data.children.len() == 0 {
                true
            } else {
                data.children[0].is_leaf()
            }
        },
    };
    let ghost nodes = node.children@;
    let ghost e = to_insert.bounds();
    let zero = ScalarOf::<T>::zero();
    let insertion_envelope = to_insert.envelope();
    let mut inclusion_count: usize = 0;
    let mut min_area = ScalarOf::<T>::max_value();
    let mut min_index: usize = 0;
    let mut index: usize = 0;
    while index < node.children.len()
        invariant
            index <= node.children@.len(),
            nodes == node.children@,
            e == to_insert.bounds(),
            insertion_envelope == to_insert.envelope_spec(),
            inclusion_count <= index,
            inclusion_count > 0 <==> exists|j: int|
                0 <= j < index && #[trigger] contains_at(nodes, j, e),
            smallest_container(nodes, e, index as int, min_index as int),
            min_index < nodes.len(),
            inclusion_count > 0 ==> min_area.value() == area_at(nodes, min_index as int),
        decreases node.children@.len() - index,
    {
        let envelope = node.children[index].envelope();
        if envelope.contains_envelope(&insertion_envelope) {
            assert(contains_at(nodes, index as int, e));
            let area = envelope.area();
            if inclusion_count == 0 || area.less(min_area) {
                min_area = area;
                min_index = index;
            }
            inclusion_count = inclusion_count + 1;
        }
        index = index + 1;
    }
    if inclusion_count == 0 {
        // No child holds the envelope: the choice goes by overlap and area.
        let mut min = (zero, zero, zero);
        let mut index: usize = 0;
        while index < node.children.len()
            invariant
                index <= node.children@.len(),
                nodes == node.children@,
                nodes.len() > 0,
                e == to_insert.bounds(),
                insertion_envelope == to_insert.envelope_spec(),
                all_leaves == grandchildren_are_leaves(*node),
                zero.value() == 0,
                index == 0 ==> min_index == 0,
                index > 0 ==> {
                    &&& least_enlargement(nodes, e, all_leaves, index as int, min_index as int)
                    &&& min.0.value() == overlap_increase_at(nodes, min_index as int, e, all_leaves)
                    &&& min.1.value() == area_increase_at(nodes, min_index as int, e)
                    &&& min.2.value() == enlarged_area_at(nodes, min_index as int, e)
                },
            decreases node.children@.len() - index,
        {
            let envelope = node.children[index].envelope();
            let new_envelope = envelope.merged(&insertion_envelope);
            let overlap_increase = if all_leaves {
                // The growth of the overlap with the other children.
                let mut overlap = zero;
                let mut new_overlap = zero;
                let mut other: usize = 0;
                proof {
                    ScalarOf::<T>::lemma_limits(zero);
                }
                while other < node.children.len()
                    invariant
                        other <= node.children@.len(),
                        index < node.children@.len(),
                        nodes == node.children@,
                        e == to_insert.bounds(),
                        envelope == nodes[index as int].envelope_spec(),
                        is_merged(new_envelope.bounds(), envelope.bounds(), e),
                        overlap.value() == saturate::<ScalarOf<T>>(
                            overlap_upto(nodes, index as int, other as int),
                        ),
                        new_overlap.value() == saturate::<ScalarOf<T>>(
                            enlarged_overlap_upto(nodes, index as int, e, other as int),
                        ),
                    decreases node.children@.len() - other,
                {
                    if other != index {
                        let child_envelope = node.children[other].envelope();
                        let temp1 = envelope.intersection_area(&child_envelope);
                        let temp2 = new_envelope.intersection_area(&child_envelope);
                        proof {
                            let c = nodes[other as int].bounds();
                            lemma_overlap_nonnegative(nodes, index as int, other as int);
                            lemma_enlarged_overlap_nonnegative(nodes, index as int, e, other as int);
                            lemma_shared_area_nonnegative(envelope.bounds(), c, dims::<PointOf<T>>());
                            lemma_merged_shared_area(
                                new_envelope.bounds(),
                                envelope.bounds(),
                                e,
                                c,
                                dims::<PointOf<T>>(),
                            );
                            lemma_merged_shared_nonnegative(
                                envelope.bounds(),
                                e,
                                c,
                                dims::<PointOf<T>>(),
                            );
                            lemma_saturated_sum::<ScalarOf<T>>(
                                overlap_upto(nodes, index as int, other as int),
                                intersection_area(envelope.bounds(), c),
                                temp1,
                            );
                            lemma_saturated_sum::<ScalarOf<T>>(
                                enlarged_overlap_upto(nodes, index as int, e, other as int),
                                merged_shared_area_upto(
                                    envelope.bounds(),
                                    e,
                                    c,
                                    dims::<PointOf<T>>(),
                                ),
                                temp1,
                            );
                        }
                        overlap = overlap.add(temp1);
                        new_overlap = new_overlap.add(temp2);
                    }
                    other = other + 1;
                }
                proof {
                    ScalarOf::<T>::lemma_limits(overlap);
                    ScalarOf::<T>::lemma_limits(new_overlap);
                    lemma_overlap_nonnegative(nodes, index as int, nodes.len() as int);
                    lemma_enlarged_overlap_nonnegative(nodes, index as int, e, nodes.len() as int);
                }
                new_overlap.sub(overlap)
            } else {
                // Above the parents of leaves the overlap is not looked at.
                zero
            };
            // The growth of the area, and the area.
            let area = new_envelope.area();
            let old_area = envelope.area();
            proof {
                ScalarOf::<T>::lemma_limits(area);
                ScalarOf::<T>::lemma_limits(old_area);
                lemma_merged_area(new_envelope.bounds(), envelope.bounds(), e, dims::<PointOf<T>>());
                lemma_area_nonnegative(envelope.bounds(), dims::<PointOf<T>>());
                lemma_area_nonnegative(new_envelope.bounds(), dims::<PointOf<T>>());
            }
            let area_increase = area.sub(old_area);
            assert(overlap_increase.value() == overlap_increase_at(nodes, index as int, e, all_leaves));
            assert(area_increase.value() == area_increase_at(nodes, index as int, e));
            assert(area.value() == enlarged_area_at(nodes, index as int, e));
            if triple_less(overlap_increase, area_increase, area, min.0, min.1, min.2) || index == 0 {
                proof {
                    if index > 0 {
                        assert(better_at(nodes, index as int, min_index as int, e, all_leaves));
                        assert forall|j: int| 0 <= j < index + 1 implies !#[trigger] better_at(
                            nodes,
                            j,
                            index as int,
                            e,
                            all_leaves,
                        ) by {
                            if j < index {
                                assert(!better_at(nodes, j, min_index as int, e, all_leaves));
                            }
                        }
                        assert forall|j: int| 0 <= j < index implies #[trigger] better_at(
                            nodes,
                            index as int,
                            j,
                            e,
                            all_leaves,
                        ) by {
                            assert(!better_at(nodes, j, min_index as int, e, all_leaves));
                        }
                    }
                }
                min = (overlap_increase, area_increase, area);
                min_index = index;
            } else {
                proof {
                    assert(!better_at(nodes, index as int, min_index as int, e, all_leaves));
                    assert forall|j: int| 0 <= j < index + 1 implies !#[trigger] better_at(
                        nodes,
                        j,
                        min_index as int,
                        e,
                        all_leaves,
                    ) by {}
                }
            }
            index = index + 1;
        }
    }
    min_index
}

/// Where the objects below a node change from `c` to `x` and `s` is handed up
/// for the `t` that was handed down, the objects below all the nodes and `s`
/// are those before and `t`.
pub proof fn lemma_bag_transfer<V>(
    a: Multiset<V>,
    c: Multiset<V>,
    b: Multiset<V>,
    x: Multiset<V>,
    s: Multiset<V>,
    t: Multiset<V>,
)
    requires
        a.add(c) == b.add(x),
        x.add(s) == c.add(t),
    ensures
        a.add(s) == b.add(t),
{
    broadcast use vstd::multiset::group_multiset_axioms;

    assert forall|v: V| a.add(s).count(v) == b.add(t).count(v) by {
        vstd::multiset::axiom_multiset_add(a, c, v);
        vstd::multiset::axiom_multiset_add(b, x, v);
        vstd::multiset::axiom_multiset_add(x, s, v);
        vstd::multiset::axiom_multiset_add(c, t, v);
        vstd::multiset::axiom_multiset_add(a, s, v);
        vstd::multiset::axiom_multiset_add(b, t, v);
    }
    assert(a.add(s) =~= b.add(t));
}

/// Adding nothing changes nothing.
pub proof fn lemma_add_empty<V>(a: Multiset<V>)
    ensures
        a.add(Multiset::empty()) == a,
{
    broadcast use vstd::multiset::group_multiset_axioms;

    assert(a.add(Multiset::empty()) =~= a);
}

/// Inserts the leaf `t` below `node`, at the level above the leaves.
///
/// `reinserted` holds one entry for each level above `node`; the levels from
/// `node` down are added to it.
fn recursive_insert<T: RTreeObject>(
    node: &mut ParentNode<T>,
    t: RTreeNode<T>,
    reinserted: &mut Vec<bool>,
    params: &Params,
) -> (res: InsertionResult<T>)
    requires
        params.wf(),
        old(node).coherent(),
        t is Leaf,
    ensures
        final(node).coherent(),
        res.coherent(),
        final(node).bag().add(res.bag()) == old(node).bag().add(t.bag()),
        final(reinserted)@.len() > old(reinserted)@.len(),
        res is Reinsert ==> res->Reinsert_1 < final(reinserted)@.len(),
        res is Reinsert ==> res->Reinsert_0@.len() > 0,
        forall|depth: nat, lo: int, hi: int|
            #![trigger old(node).regular_root(depth, lo, hi)]
            1 <= lo <= params.min_size_spec() && params.max_size_spec() <= hi && old(
                node,
            ).regular_root(depth, lo, hi) && (depth == 1 || old(node).children@.len() >= 1)
                ==> stays_regular(
                *old(node),
                *final(node),
                res,
                old(reinserted)@.len() as int,
                depth,
                lo,
                hi,
            ) && final(reinserted)@.len() == old(reinserted)@.len() + depth,
        descent_fits(old(node).as_node(), t.bounds(), params.max_size_spec() as int) ==> res is Complete
            && placed_in(old(node).as_node(), final(node).as_node(), t),
    decreases old(node).height(),
{
    let current_depth = reinserted.len();
    reinserted.push(false);
    let expand_index = choose_subtree(node, &t);
    let ghost children = node.children@;
    proof {
        lemma_coherent_parent(*node);
    }
    if expand_index < node.children.len() && !node.children[expand_index].is_leaf() {
        proof {
            lemma_child_height(children, expand_index as int);
        }
        let ghost record = reinserted@;
        let result = match &mut node.children[expand_index] {
            RTreeNode::Parent(follow) => recursive_insert(follow, t, reinserted, params),
            RTreeNode::Leaf(_) => InsertionResult::Complete,
        };
        let ghost after = node.children@;
        let ghost child_before = children[expand_index as int]->Parent_0;
        let ghost child_after = after[expand_index as int]->Parent_0;
        proof {
            assert(after =~= children.update(expand_index as int, after[expand_index as int]));
            lemma_bag_update(children, expand_index as int, after[expand_index as int]);
            assert(after[expand_index as int].bag() == after[expand_index as int]->Parent_0.bag());
            assert(children[expand_index as int].bag() == children[expand_index as int]->Parent_0.bag());
            lemma_bag_transfer(
                bag_of(after),
                children[expand_index as int].bag(),
                bag_of(children),
                after[expand_index as int].bag(),
                result.bag(),
                t.bag(),
            );
            assert(all_coherent(after)) by {
                assert forall|k: int| 0 <= k < after.len() implies (#[trigger] after[k]).coherent() by {
                    if k != expand_index {
                        assert(after[k] == children[k]);
                    }
                }
            }
        }
        let res = match result {
            InsertionResult::Split(child) => {
                node.children.push(child);
                node.envelope = envelope_for_children(node.children.as_slice());
                proof {
                    lemma_bag_push(after, child);
                    lemma_parent_coherent(*node);
                }
                resolve_overflow(node, current_depth, reinserted, params)
            },
            InsertionResult::Reinsert(a, b) => {
                node.envelope = envelope_for_children(node.children.as_slice());
                proof {
                    lemma_parent_coherent(*node);
                }
                InsertionResult::Reinsert(a, b)
            },
            InsertionResult::Complete => {
                node.envelope = envelope_for_children(node.children.as_slice());
                proof {
                    lemma_parent_coherent(*node);
                }
                InsertionResult::Complete
            },
        };
        proof {
            if descent_fits(old(node).as_node(), t.bounds(), params.max_size_spec() as int) {
                assert(is_choice(*old(node), t.bounds(), expand_index as int));
                assert(!ends_at(*old(node), expand_index as int));
                assert(descent_fits(children[expand_index as int], t.bounds(), params.max_size_spec() as int));
                assert(children[expand_index as int] == child_before.as_node());
                assert(after[expand_index as int] == child_after.as_node());
                assert(result is Complete);
                assert(node.children@ == after);
                assert(placed_in(old(node).as_node(), node.as_node(), t));
            }
        }
        proof {
            assert forall|depth: nat, lo: int, hi: int|
                #![trigger old(node).regular_root(depth, lo, hi)]
                1 <= lo <= params.min_size_spec() && params.max_size_spec() <= hi && old(
                    node,
                ).regular_root(depth, lo, hi) && (depth == 1 || old(node).children@.len()
                    >= 1) implies stays_regular(
                *old(node),
                *node,
                res,
                current_depth as int,
                depth,
                lo,
                hi,
            ) && reinserted@.len() == current_depth + depth by {
                lemma_descent_regular(
                    *old(node),
                    *node,
                    expand_index as int,
                    child_before,
                    child_after,
                    after,
                    result,
                    res,
                    *params,
                    current_depth as int,
                    depth,
                    lo,
                    hi,
                );
                assert(child_before.regular_root((depth - 1) as nat, lo, hi));
            }
        }
        res
    } else {
        // The insertion ends at this node.
        node.children.push(t);
        node.envelope = envelope_for_children(node.children.as_slice());
        proof {
            lemma_bag_push(children, t);
            lemma_parent_coherent(*node);
        }
        let ghost pushed = *node;
        let res = resolve_overflow(node, current_depth, reinserted, params);
        proof {
            if descent_fits(old(node).as_node(), t.bounds(), params.max_size_spec() as int) {
                assert(is_choice(*old(node), t.bounds(), expand_index as int));
                assert(ends_at(*old(node), expand_index as int));
                assert(children.len() < params.max_size_spec());
                assert(pushed.children@ == children.push(t));
                assert(res is Complete);
                assert(node.children@ == children.push(t));
                assert(placed_in(old(node).as_node(), node.as_node(), t));
            }
        }
        proof {
            assert forall|depth: nat, lo: int, hi: int|
                #![trigger old(node).regular_root(depth, lo, hi)]
                1 <= lo <= params.min_size_spec() && params.max_size_spec() <= hi && old(
                    node,
                ).regular_root(depth, lo, hi) && (depth == 1 || old(node).children@.len()
                    >= 1) implies stays_regular(
                *old(node),
                *node,
                res,
                current_depth as int,
                depth,
                lo,
                hi,
            ) && reinserted@.len() == current_depth + depth by {
                if depth >= 2 {
                    // The children are parents: the insertion would have gone on.
                    assert(children[0].regular((depth - 1) as nat, lo, hi));
                    assert(children[expand_index as int].regular((depth - 1) as nat, lo, hi));
                }
                assert(all_regular(pushed.children@, 0, lo, hi)) by {
                    assert forall|k: int| 0 <= k < pushed.children@.len() implies (
                    #[trigger] pushed.children@[k]).regular(0, lo, hi) by {
                        if k < children.len() {
                            assert(pushed.children@[k] == children[k]);
                        }
                    }
                }
                lemma_relieved_regular(pushed, *node, res, *params, current_depth as int, depth, lo, hi);
            }
        }
        res
    }
}

/// What an insertion into a child leaves of the regularity of its parent.
pub proof fn lemma_descent_regular<T: RTreeObject>(
    before: ParentNode<T>,
    after: ParentNode<T>,
    index: int,
    child_before: ParentNode<T>,
    child_after: ParentNode<T>,
    between: Seq<RTreeNode<T>>,
    result: InsertionResult<T>,
    res: InsertionResult<T>,
    params: Params,
    depth_of_node: int,
    depth: nat,
    lo: int,
    hi: int,
)
    requires
        params.wf(),
        1 <= lo <= params.min_size_spec(),
        params.max_size_spec() <= hi,
        before.regular_root(depth, lo, hi),
        0 <= index < before.children@.len(),
        before.children@[index] == RTreeNode::Parent(child_before),
        between == before.children@.update(index, RTreeNode::Parent(child_after)),
        child_before.regular_root((depth - 1) as nat, lo, hi) ==> stays_regular(
            child_before,
            child_after,
            result,
            depth_of_node + 1,
            (depth - 1) as nat,
            lo,
            hi,
        ),
        match result {
            InsertionResult::Split(child) => exists|pushed: ParentNode<T>|
                pushed.children@ == between.push(child) && relieved(pushed, after, res, params)
                    && (res is Reinsert ==> res->Reinsert_1 == depth_of_node),
            InsertionResult::Reinsert(a, b) => after.children@ == between && res == result,
            InsertionResult::Complete => after.children@ == between && res == result,
        },
    ensures
        child_before.regular_root((depth - 1) as nat, lo, hi),
        stays_regular(before, after, res, depth_of_node, depth, lo, hi),
{
    let child = before.children@[index];
    assert(child.regular((depth - 1) as nat, lo, hi));
    assert(child_before.regular_root((depth - 1) as nat, lo, hi));
    assert(RTreeNode::Parent(child_after).regular((depth - 1) as nat, lo, hi));
    assert(all_regular(between, (depth - 1) as nat, lo, hi)) by {
        assert forall|k: int| 0 <= k < between.len() implies (#[trigger] between[k]).regular(
            (depth - 1) as nat,
            lo,
            hi,
        ) by {
            if k != index {
                assert(between[k] == before.children@[k]);
            }
        }
    }
    match result {
        InsertionResult::Split(sibling) => {
            let pushed = choose|pushed: ParentNode<T>|
                pushed.children@ == between.push(sibling) && relieved(pushed, after, res, params)
                    && (res is Reinsert ==> res->Reinsert_1 == depth_of_node);
            assert(all_regular(pushed.children@, (depth - 1) as nat, lo, hi)) by {
                assert forall|k: int| 0 <= k < pushed.children@.len() implies (
                #[trigger] pushed.children@[k]).regular((depth - 1) as nat, lo, hi) by {
                    if k < between.len() {
                        assert(pushed.children@[k] == between[k]);
                    }
                }
            }
            lemma_relieved_regular(pushed, after, res, params, depth_of_node, depth, lo, hi);
        },
        InsertionResult::Reinsert(a, b) => {},
        InsertionResult::Complete => {},
    }
}

/// Inserts the node `t` below `node` into a node at `target_depth`, or into
/// the last node above the leaves on the way there.
///
/// `current_depth` is the depth of `node`. No level is added to `reinserted`.
fn forced_insertion<T: RTreeObject>(
    node: &mut ParentNode<T>,
    t: RTreeNode<T>,
    target_depth: usize,
    current_depth: usize,
    reinserted: &mut Vec<bool>,
    params: &Params,
) -> (res: InsertionResult<T>)
    requires
        params.wf(),
        old(node).coherent(),
        t.coherent(),
        current_depth <= target_depth,
    ensures
        final(node).coherent(),
        res.coherent(),
        final(node).bag().add(res.bag()) == old(node).bag().add(t.bag()),
        final(reinserted)@.len() == old(reinserted)@.len(),
        res is Reinsert ==> {
            &&& res->Reinsert_1 < final(reinserted)@.len()
            &&& res->Reinsert_0@.len() > 0
            &&& count_false(final(reinserted)@) + 1 == count_false(old(reinserted)@)
        },
        !(res is Reinsert) ==> final(reinserted)@ == old(reinserted)@,
        forall|depth: nat, lo: int, hi: int|
            #![trigger old(node).regular_root(depth, lo, hi)]
            1 <= lo <= params.min_size_spec() && params.max_size_spec() <= hi && old(
                node,
            ).regular_root(depth, lo, hi) && old(node).children@.len() >= 1 && target_depth
                - current_depth < depth && t.regular(
                (depth - 1 - (target_depth - current_depth)) as nat,
                lo,
                hi,
            ) ==> stays_regular(*old(node), *final(node), res, current_depth as int, depth, lo, hi),
    decreases old(node).height(),
{
    let expand_index = choose_subtree(node, &t);
    let ghost children = node.children@;
    proof {
        lemma_coherent_parent(*node);
    }
    if current_depth < target_depth && expand_index < node.children.len()
        && !node.children[expand_index].is_leaf() {
        proof {
            lemma_child_height(children, expand_index as int);
        }
        let result = match &mut node.children[expand_index] {
            RTreeNode::Parent(follow) => forced_insertion(
                follow,
                t,
                target_depth,
                current_depth + 1,
                reinserted,
                params,
            ),
            RTreeNode::Leaf(_) => InsertionResult::Complete,
        };
        let ghost after = node.children@;
        let ghost child_before = children[expand_index as int]->Parent_0;
        let ghost child_after = after[expand_index as int]->Parent_0;
        proof {
            assert(after =~= children.update(expand_index as int, after[expand_index as int]));
            lemma_bag_update(children, expand_index as int, after[expand_index as int]);
            assert(after[expand_index as int].bag() == after[expand_index as int]->Parent_0.bag());
            assert(children[expand_index as int].bag() == children[expand_index as int]->Parent_0.bag());
            lemma_bag_transfer(
                bag_of(after),
                children[expand_index as int].bag(),
                bag_of(children),
                after[expand_index as int].bag(),
                result.bag(),
                t.bag(),
            );
            assert(all_coherent(after)) by {
                assert forall|k: int| 0 <= k < after.len() implies (#[trigger] after[k]).coherent() by {
                    if k != expand_index {
                        assert(after[k] == children[k]);
                    }
                }
            }
        }
        let res = match result {
            InsertionResult::Split(child) => {
                node.children.push(child);
                node.envelope = envelope_for_children(node.children.as_slice());
                proof {
                    lemma_bag_push(after, child);
                    lemma_parent_coherent(*node);
                }
                let res = resolve_overflow(node, current_depth, reinserted, params);
                proof {
                    if res is Reinsert {
                        lemma_count_false_mark(old(reinserted)@, current_depth as int);
                    }
                }
                res
            },
            InsertionResult::Reinsert(a, b) => {
                node.envelope = envelope_for_children(node.children.as_slice());
                proof {
                    lemma_parent_coherent(*node);
                }
                InsertionResult::Reinsert(a, b)
            },
            InsertionResult::Complete => {
                node.envelope = envelope_for_children(node.children.as_slice());
                proof {
                    lemma_parent_coherent(*node);
                }
                InsertionResult::Complete
            },
        };
        proof {
            assert forall|depth: nat, lo: int, hi: int|
                #![trigger old(node).regular_root(depth, lo, hi)]
                1 <= lo <= params.min_size_spec() && params.max_size_spec() <= hi && old(
                    node,
                ).regular_root(depth, lo, hi) && old(node).children@.len() >= 1 && target_depth
                    - current_depth < depth && t.regular(
                    (depth - 1 - (target_depth - current_depth)) as nat,
                    lo,
                    hi,
                ) implies stays_regular(*old(node), *node, res, current_depth as int, depth, lo, hi) by {
                assert(children[expand_index as int].regular((depth - 1) as nat, lo, hi));
                assert(child_before.regular_root((depth - 1) as nat, lo, hi));
                lemma_descent_regular(
                    *old(node),
                    *node,
                    expand_index as int,
                    child_before,
                    child_after,
                    after,
                    result,
                    res,
                    *params,
                    current_depth as int,
                    depth,
                    lo,
                    hi,
                );
            }
        }
        res
    } else {
        // The insertion ends at this node.
        node.children.push(t);
        node.envelope = envelope_for_children(node.children.as_slice());
        proof {
            lemma_bag_push(children, t);
            lemma_parent_coherent(*node);
        }
        let ghost pushed = *node;
        let res = resolve_overflow(node, current_depth, reinserted, params);
        proof {
            if res is Reinsert {
                lemma_count_false_mark(old(reinserted)@, current_depth as int);
            }
            assert forall|depth: nat, lo: int, hi: int|
                #![trigger old(node).regular_root(depth, lo, hi)]
                1 <= lo <= params.min_size_spec() && params.max_size_spec() <= hi && old(
                    node,
                ).regular_root(depth, lo, hi) && old(node).children@.len() >= 1 && target_depth
                    - current_depth < depth && t.regular(
                    (depth - 1 - (target_depth - current_depth)) as nat,
                    lo,
                    hi,
                ) implies stays_regular(*old(node), *node, res, current_depth as int, depth, lo, hi) by {
                if current_depth < target_depth {
                    // The children are parents: the insertion would have gone on.
                    assert(children[0].regular((depth - 1) as nat, lo, hi));
                    assert(children[expand_index as int].regular((depth - 1) as nat, lo, hi));
                }
                assert(all_regular(pushed.children@, (depth - 1) as nat, lo, hi)) by {
                    assert forall|k: int| 0 <= k < pushed.children@.len() implies (
                    #[trigger] pushed.children@[k]).regular((depth - 1) as nat, lo, hi) by {
                        if k < children.len() {
                            assert(pushed.children@[k] == children[k]);
                        }
                    }
                }
                lemma_relieved_regular(pushed, *node, res, *params, current_depth as int, depth, lo, hi);
            }
        }
        res
    }
}

/// Puts a new root above the old one and the sibling that its split gave.
fn grow_root<T: RTreeObject>(root: &mut ParentNode<T>, sibling: RTreeNode<T>, params: &Params)
    requires
        params.wf(),
        old(root).coherent(),
        sibling.coherent(),
    ensures
        final(root).coherent(),
        final(root).bag() == old(root).bag().add(sibling.bag()),
        final(root).children@ == seq![RTreeNode::Parent(*old(root)), sibling],
        forall|depth: nat, lo: int, hi: int|
            #![trigger old(root).regular_root(depth, lo, hi)]
            2 <= hi && old(root).regular_root(depth, lo, hi) && old(root).children@.len() >= lo
                && sibling.regular(depth, lo, hi) ==> final(root).regular_root(depth + 1, lo, hi),
{
    let mut old_root = ParentNode::new_root(params);
    core::mem::swap(root, &mut old_root);
    let new_envelope = old_root.envelope.merged(&sibling.envelope());
    root.envelope = new_envelope;
    let ghost old_node = RTreeNode::Parent(old_root);
    root.children.push(RTreeNode::Parent(old_root));
    root.children.push(sibling);
    proof {
        let none = Seq::<RTreeNode<T>>::empty();
        let one = seq![old_node];
        let two = root.children@;
        assert(two =~= seq![old_node, sibling]);
        assert(two.drop_last() =~= one);
        assert(one.drop_last() =~= none);
        assert forall|i: int|
            #![trigger lo(new_envelope.bounds(), i)]
            #![trigger hi(new_envelope.bounds(), i)]
            0 <= i < dims::<PointOf<T>>() implies lo(new_envelope.bounds(), i) == union_lo(two, i)
            && hi(new_envelope.bounds(), i) == union_hi(two, i) by {
            lemma_bounds_in_range(old_node.bounds(), i);
            assert(union_lo(none, i) == ScalarOf::<T>::upper_limit());
            assert(union_hi(none, i) == ScalarOf::<T>::lower_limit());
            assert(union_lo(one, i) == lo(old_node.bounds(), i));
            assert(union_hi(one, i) == hi(old_node.bounds(), i));
        }
        assert(all_coherent(two)) by {
            assert forall|k: int| 0 <= k < two.len() implies (#[trigger] two[k]).coherent() by {
                if k == 0 {
                    assert(two[0] == old_node);
                } else {
                    assert(two[1] == sibling);
                }
            }
        }
        lemma_parent_coherent(*root);
        lemma_bag_empty::<T>();
        lemma_bag_push(none, old_node);
        assert(none.push(old_node) =~= one);
        lemma_bag_push(one, sibling);
        assert(one.push(sibling) =~= two);
        assert(old_node.bag() == old(root).bag());
        assert(Multiset::<T>::empty().add(old_node.bag()) =~= old_node.bag()) by {
            broadcast use vstd::multiset::group_multiset_axioms;
        }
        assert forall|depth: nat, lo: int, hi: int|
            #![trigger old(root).regular_root(depth, lo, hi)]
            2 <= hi && old(root).regular_root(depth, lo, hi) && old(root).children@.len() >= lo
                && sibling.regular(depth, lo, hi) implies root.regular_root(depth + 1, lo, hi) by {
            assert(old_node.regular(depth, lo, hi));
            assert forall|k: int| 0 <= k < two.len() implies (#[trigger] two[k]).regular(
                depth,
                lo,
                hi,
            ) by {
                if k == 0 {
                    assert(two[0] == old_node);
                } else {
                    assert(two[1] == sibling);
                }
            }
        }
    }
}

/// The nodes that wait to be inserted.
pub open spec fn pending_nodes<T: RTreeObject>(stack: Seq<(RTreeNode<T>, usize)>) -> Seq<
    RTreeNode<T>,
> {
    stack.map_values(|item: (RTreeNode<T>, usize)| item.0)
}

/// Every node that waits is regular at the depth of the level it waits for.
pub open spec fn pending_regular<T: RTreeObject>(
    stack: Seq<(RTreeNode<T>, usize)>,
    lo: int,
    hi: int,
) -> bool {
    forall|k: int|
        0 <= k < stack.len() ==> (#[trigger] stack[k]).0.regular(
            (stack[k].1 - 1) as nat,
            lo,
            hi,
        )
}

/// Moves `nodes` onto `stack`, each with `level`.
fn push_pending<T: RTreeObject>(
    stack: &mut Vec<(RTreeNode<T>, usize)>,
    nodes: Vec<RTreeNode<T>>,
    level: usize,
)
    ensures
        pending_nodes(final(stack)@) == pending_nodes(old(stack)@) + nodes@,
        forall|k: int|
            0 <= k < old(stack)@.len() ==> (#[trigger] final(stack)@[k]) == old(stack)@[k],
        forall|k: int|
            old(stack)@.len() <= k < final(stack)@.len() ==> (#[trigger] final(stack)@[k]) == (
                nodes@[k - old(stack)@.len()],
                level,
            ),
        final(stack)@.len() == old(stack)@.len() + nodes@.len(),
{
    let mut nodes = nodes;
    let ghost all = nodes@;
    let ghost mut done: int = 0;
    assert(pending_nodes(stack@) =~= pending_nodes(old(stack)@) + all.subrange(0, 0));
    while nodes.len() > 0
        invariant
            0 <= done <= all.len(),
            nodes@ == all.subrange(done, all.len() as int),
            pending_nodes(stack@) == pending_nodes(old(stack)@) + all.subrange(0, done),
            stack@.len() == old(stack)@.len() + done,
            forall|k: int| 0 <= k < old(stack)@.len() ==> (#[trigger] stack@[k]) == old(stack)@[k],
            forall|k: int|
                old(stack)@.len() <= k < stack@.len() ==> (#[trigger] stack@[k]) == (
                    all[k - old(stack)@.len()],
                    level,
                ),
        decreases nodes@.len(),
    {
        let ghost before = stack@;
        let node = nodes.remove(0);
        stack.push((node, level));
        proof {
            assert(nodes@ =~= all.subrange(done + 1, all.len() as int));
            assert(pending_nodes(stack@) =~= pending_nodes(before).push(node));
            assert(all.subrange(0, done + 1) =~= all.subrange(0, done).push(all[done]));
            assert(pending_nodes(stack@) =~= pending_nodes(old(stack)@) + all.subrange(0, done + 1));
            assert forall|k: int| old(stack)@.len() <= k < stack@.len() implies (
            #[trigger] stack@[k]) == (all[k - old(stack)@.len()], level) by {
                if k < before.len() {
                    assert(stack@[k] == before[k]);
                }
            }
            done = done + 1;
        }
    }
    assert(all.subrange(0, done) =~= all);
}

/// The tree below `root` is regular: its leaves are all at the depth that is
/// its height, the root has at most `hi` children and every other parent
/// between `lo` and `hi`.
pub open spec fn regular_tree<T: RTreeObject>(root: ParentNode<T>, lo: int, hi: int) -> bool {
    root.regular_root(root.height(), lo, hi)
}

/// A root that is regular at some depth is a regular tree.
pub proof fn lemma_regular_tree<T: RTreeObject>(root: ParentNode<T>, depth: nat, lo: int, hi: int)
    requires
        root.regular_root(depth, lo, hi),
        root.children@.len() >= 1,
        lo >= 1,
    ensures
        root.height() == depth,
        regular_tree(root, lo, hi),
{
    crate::node::lemma_regular_height_run(root.children@, (depth - 1) as nat, lo, hi);
}

impl RStarInsertionStrategy {
    /// Inserts `t` into the tree below `root`.
    ///
    /// The object is put among the leaves of the subtree that the heuristic
    /// chooses. A node that overflows gives up some of its children for
    /// reinsertion where its level has not done so during this insertion, and
    /// is split where it has; where the root is split, the tree grows by a
    /// level. Afterwards the tree holds the objects it held and `t`, and every
    /// parent keeps the union of its children's envelopes. A regular tree
    /// stays regular, and does not get lower: it gains a level with every
    /// split of its root, and none where no node overflows.
    pub fn insert<T: RTreeObject>(root: &mut ParentNode<T>, t: T, params: &Params)
        requires
            params.wf(),
            old(root).coherent(),
        ensures
            final(root).coherent(),
            final(root).bag() == old(root).bag().insert(t),
            forall|lo: int, hi: int|
                #![trigger regular_tree(*old(root), lo, hi)]
                1 <= lo <= params.min_size_spec() && params.max_size_spec() <= hi && regular_tree(
                    *old(root),
                    lo,
                    hi,
                ) ==> regular_tree(*final(root), lo, hi) && final(root).height() >= old(root).height()
                    && (descent_fits(
                    old(root).as_node(),
                    RTreeNode::Leaf(t).bounds(),
                    params.max_size_spec() as int,
                ) ==> final(root).height() == old(root).height()),
            descent_fits(old(root).as_node(), RTreeNode::Leaf(t).bounds(), params.max_size_spec() as int)
                ==> placed_in(old(root).as_node(), final(root).as_node(), RTreeNode::Leaf(t)),
    {
        let ghost fits = descent_fits(
            old(root).as_node(),
            RTreeNode::Leaf(t).bounds(),
            params.max_size_spec() as int,
        );
        let mut reinserted: Vec<bool> = Vec::new();
        let mut stack: Vec<(RTreeNode<T>, usize)> = Vec::new();
        let leaf = RTreeNode::Leaf(t);
        let ghost start = old(root).height();
        proof {
            lemma_leaf_bag(t);
            assert(old(root).bag().add(leaf.bag()) =~= old(root).bag().insert(t)) by {
                broadcast use vstd::multiset::group_multiset_axioms;
            }
            assert(pending_nodes(stack@) =~= Seq::<RTreeNode<T>>::empty());
            lemma_bag_empty::<T>();
            if old(root).children@.len() == 0 {
                assert(start == 1);
            }
        }
        let first = recursive_insert(root, leaf, &mut reinserted, params);
        let ghost mut growth: nat = 0;
        proof {
            assert forall|lo: int, hi: int|
                1 <= lo <= params.min_size_spec() && params.max_size_spec() <= hi && regular_tree(
                    *old(root),
                    lo,
                    hi,
                ) implies stays_regular(*old(root), *root, first, 0, start, lo, hi)
                && reinserted@.len() == start by {
                assert(old(root).regular_root(start, lo, hi));
            }
        }
        match first {
            InsertionResult::Split(node) => {
                let ghost below = *root;
                grow_root(root, node, params);
                reinserted.insert(0, true);
                proof {
                    lemma_add_empty(root.bag());
                    growth = 1;
                    assert forall|lo: int, hi: int|
                        1 <= lo <= params.min_size_spec() && params.max_size_spec() <= hi
                            && regular_tree(*old(root), lo, hi) implies root.regular_root(
                        start + growth,
                        lo,
                        hi,
                    ) by {
                        assert(stays_regular(*old(root), below, first, 0, start, lo, hi));
                        assert(below.regular_root(start, lo, hi));
                    }
                }
            },
            InsertionResult::Reinsert(nodes_to_reinsert, depth) => {
                let level = reinserted.len() - depth;
                push_pending(&mut stack, nodes_to_reinsert, level);
                proof {
                    assert(pending_nodes(stack@) =~= nodes_to_reinsert@);
                    assert forall|lo: int, hi: int|
                        1 <= lo <= params.min_size_spec() && params.max_size_spec() <= hi
                            && regular_tree(*old(root), lo, hi) implies pending_regular(
                        stack@,
                        lo,
                        hi,
                    ) by {
                        assert(stays_regular(*old(root), *root, first, 0, start, lo, hi));
                        assert forall|k: int| 0 <= k < stack@.len() implies (
                        #[trigger] stack@[k]).0.regular((stack@[k].1 - 1) as nat, lo, hi) by {
                            assert(stack@[k] == (nodes_to_reinsert@[k], level));
                            assert(nodes_to_reinsert@[k].regular(
                                (start - 1 - depth) as nat,
                                lo,
                                hi,
                            ));
                        }
                    }
                }
            },
            InsertionResult::Complete => {},
        }
        while stack.len() > 0
            invariant
                params.wf(),
                root.coherent(),
                fits ==> stack@.len() == 0 && growth == 0 && placed_in(
                    old(root).as_node(),
                    root.as_node(),
                    RTreeNode::Leaf(t),
                ),
                all_coherent(pending_nodes(stack@)),
                root.bag().add(bag_of(pending_nodes(stack@))) == old(root).bag().insert(t),
                forall|k: int| 0 <= k < stack@.len() ==> 1 <= (#[trigger] stack@[k]).1 <= reinserted@.len(),
                start == old(root).height(),
                forall|lo: int, hi: int|
                    #![trigger regular_tree(*old(root), lo, hi)]
                    1 <= lo <= params.min_size_spec() && params.max_size_spec() <= hi
                        && regular_tree(*old(root), lo, hi) ==> {
                        &&& root.regular_root(start + growth, lo, hi)
                        &&& root.children@.len() >= 1
                        &&& reinserted@.len() == start + growth
                        &&& pending_regular(stack@, lo, hi)
                    },
            decreases count_false(reinserted@), stack@.len(),
        {
            let ghost before = stack@;
            let ghost record = reinserted@;
            let ghost root_start = *root;
            let (next, level) = stack.pop().unwrap();
            proof {
                assert(before =~= stack@.push((next, level)));
                assert(pending_nodes(before) =~= pending_nodes(stack@).push(next));
                lemma_bag_push(pending_nodes(stack@), next);
                assert(next == pending_nodes(before)[before.len() - 1]);
                assert(all_coherent(pending_nodes(stack@))) by {
                    assert forall|k: int| 0 <= k < stack@.len() implies (#[trigger] pending_nodes(
                        stack@,
                    )[k]).coherent() by {
                        assert(pending_nodes(stack@)[k] == pending_nodes(before)[k]);
                    }
                }
                assert(forall|k: int| 0 <= k < stack@.len() ==> (#[trigger] stack@[k]) == before[k]);
                assert(before[before.len() - 1] == (next, level));
            }
            let target_depth = reinserted.len() - level;
            let ghost root_before = root.bag();
            let result = forced_insertion(root, next, target_depth, 0, &mut reinserted, params);
            proof {
                lemma_bag_regroup(
                    root.bag(),
                    result.bag(),
                    root_before,
                    next.bag(),
                    bag_of(pending_nodes(stack@)),
                );
                assert forall|lo: int, hi: int|
                    1 <= lo <= params.min_size_spec() && params.max_size_spec() <= hi
                        && regular_tree(*old(root), lo, hi) implies stays_regular(
                    root_start,
                    *root,
                    result,
                    0,
                    start + growth,
                    lo,
                    hi,
                ) && pending_regular(stack@, lo, hi) by {
                    assert(pending_regular(before, lo, hi));
                    assert(before[before.len() - 1].0.regular((level - 1) as nat, lo, hi));
                    assert(root_start.regular_root(start + growth, lo, hi));
                    assert forall|k: int| 0 <= k < stack@.len() implies (
                    #[trigger] stack@[k]).0.regular((stack@[k].1 - 1) as nat, lo, hi) by {
                        assert(stack@[k] == before[k]);
                    }
                }
            }
            let ghost root_after = *root;
            match result {
                InsertionResult::Split(node) => {
                    grow_root(root, node, params);
                    reinserted.insert(0, true);
                    proof {
                        lemma_count_false_grow(record);
                        assert forall|lo: int, hi: int|
                            1 <= lo <= params.min_size_spec() && params.max_size_spec() <= hi
                                && regular_tree(*old(root), lo, hi) implies root.regular_root(
                            start + growth + 1,
                            lo,
                            hi,
                        ) by {
                            assert(stays_regular(
                                root_start,
                                root_after,
                                result,
                                0,
                                start + growth,
                                lo,
                                hi,
                            ));
                            assert(root_after.regular_root(start + growth, lo, hi));
                        }
                        growth = growth + 1;
                    }
                },
                InsertionResult::Reinsert(nodes_to_reinsert, depth) => {
                    let ghost remaining = stack@;
                    let level = reinserted.len() - depth;
                    push_pending(&mut stack, nodes_to_reinsert, level);
                    proof {
                        lemma_bag_concat(pending_nodes(remaining), nodes_to_reinsert@);
                        assert(all_coherent(pending_nodes(stack@))) by {
                            assert forall|k: int| 0 <= k < stack@.len() implies (
                            #[trigger] pending_nodes(stack@)[k]).coherent() by {
                                if k < remaining.len() {
                                    assert(pending_nodes(stack@)[k] == pending_nodes(remaining)[k]);
                                } else {
                                    assert(pending_nodes(stack@)[k] == nodes_to_reinsert@[k
                                        - remaining.len()]);
                                }
                            }
                        }
                        assert forall|k: int| 0 <= k < stack@.len() implies 1 <= (
                        #[trigger] stack@[k]).1 <= reinserted@.len() by {
                            if k < remaining.len() {
                                assert(stack@[k] == remaining[k]);
                                assert(remaining[k] == before[k]);
                            } else {
                                assert(stack@[k] == (nodes_to_reinsert@[k - remaining.len()], level));
                            }
                        }
                        lemma_bag_assoc(root.bag(), bag_of(nodes_to_reinsert@), bag_of(pending_nodes(remaining)));
                        assert forall|lo: int, hi: int|
                            1 <= lo <= params.min_size_spec() && params.max_size_spec() <= hi
                                && regular_tree(*old(root), lo, hi) implies pending_regular(
                            stack@,
                            lo,
                            hi,
                        ) by {
                            assert(stays_regular(
                                root_start,
                                root_after,
                                result,
                                0,
                                start + growth,
                                lo,
                                hi,
                            ));
                            assert(pending_regular(remaining, lo, hi));
                            assert forall|k: int| 0 <= k < stack@.len() implies (
                            #[trigger] stack@[k]).0.regular((stack@[k].1 - 1) as nat, lo, hi) by {
                                if k < remaining.len() {
                                    assert(stack@[k] == remaining[k]);
                                } else {
                                    assert(stack@[k] == (
                                        nodes_to_reinsert@[k - remaining.len()],
                                        level,
                                    ));
                                    assert(nodes_to_reinsert@[k - remaining.len()].regular(
                                        (start + growth - 1 - depth) as nat,
                                        lo,
                                        hi,
                                    ));
                                }
                            }
                        }
                    }
                },
                InsertionResult::Complete => {
                    proof {
                        lemma_add_empty(root.bag());
                    }
                },
            }
        }
        proof {
            assert(pending_nodes(stack@) =~= Seq::<RTreeNode<T>>::empty());
            lemma_add_empty(root.bag());
            assert forall|lo: int, hi: int|
                #![trigger regular_tree(*old(root), lo, hi)]
                1 <= lo <= params.min_size_spec() && params.max_size_spec() <= hi && regular_tree(
                    *old(root),
                    lo,
                    hi,
                ) implies regular_tree(*root, lo, hi) && root.height() >= old(root).height() && (fits
                ==> root.height() == old(root).height()) by {
                lemma_regular_tree(*root, start + growth, lo, hi);
            }
        }
    }
}

/// What is in the tree and on the stack stays the same where a node leaves
/// the stack for the tree.
pub proof fn lemma_bag_regroup<V>(
    root_after: Multiset<V>,
    handed_up: Multiset<V>,
    root_before: Multiset<V>,
    next: Multiset<V>,
    rest: Multiset<V>,
)
    requires
        root_after.add(handed_up) == root_before.add(next),
    ensures
        root_after.add(handed_up).add(rest) == root_before.add(rest.add(next)),
{
    assert forall|v: V| root_after.add(handed_up).add(rest).count(v) == root_before.add(
        rest.add(next),
    ).count(v) by {
        vstd::multiset::axiom_multiset_add(root_after.add(handed_up), rest, v);
        vstd::multiset::axiom_multiset_add(root_before, next, v);
        vstd::multiset::axiom_multiset_add(root_before, rest.add(next), v);
        vstd::multiset::axiom_multiset_add(rest, next, v);
    }
    assert(root_after.add(handed_up).add(rest) =~= root_before.add(rest.add(next)));
}

/// Adding is associative, and the order of what is added does not matter.
pub proof fn lemma_bag_assoc<V>(a: Multiset<V>, b: Multiset<V>, c: Multiset<V>)
    ensures
        a.add(b).add(c) == a.add(c.add(b)),
{
    assert forall|v: V| a.add(b).add(c).count(v) == a.add(c.add(b)).count(v) by {
        vstd::multiset::axiom_multiset_add(a.add(b), c, v);
        vstd::multiset::axiom_multiset_add(a, b, v);
        vstd::multiset::axiom_multiset_add(a, c.add(b), v);
        vstd::multiset::axiom_multiset_add(c, b, v);
    }
    assert(a.add(b).add(c) =~= a.add(c.add(b)));
}

} // verus!
