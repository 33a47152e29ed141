//! The overlap minimizing top-down bulk loading algorithm, in any dimension.

use crate::algorithm::bulk_load::cluster_group_iterator::{
    calculate_number_of_clusters_on_axis, is_tree_depth, tree_depth, ClusterGroupIterator,
};
use crate::algorithm::bulk_load::level_partitioning::div_up_spec;
use vstd::arithmetic::power::pow;
use crate::node::{
    all_coherent, bag_of, height_of, leaves_of, lemma_bag_empty, lemma_bag_push,
    lemma_parent_coherent, ParentNode, PointOf, RTreeNode,
};
use crate::object::RTreeObject;
use crate::params::Params;
use crate::point::Point;
use vstd::multiset::Multiset;
use vstd::prelude::*;

verus! {

/// The objects of all of `slabs`.
pub open spec fn slabs_bag<T>(slabs: Seq<Vec<T>>) -> Multiset<T>
    decreases slabs.len(),
{
    if slabs.len() == 0 {
        Multiset::empty()
    } else {
        slabs_bag(slabs.drop_last()).add(slabs.last()@.to_multiset())
    }
}

/// A number is no larger than its quotient by another, rounded up, times the
/// other.
pub proof fn lemma_div_up_covers(n: int, q: int)
    requires
        n >= 0,
        q >= 1,
    ensures
        n <= div_up_spec(n, q) * q,
        div_up_spec(n, q) >= 0,
{
    assert(n <= ((n + q - 1) / q) * q && (n + q - 1) / q >= 0) by (nonlinear_arith)
        requires
            n >= 0,
            q >= 1,
    ;
}

/// The quotient, rounded up, of a number that is at most `k` times a bound is
/// at most the bound.
pub proof fn lemma_div_up_bound(n: int, k: int, bound: int)
    requires
        0 <= n <= k * bound,
        k >= 1,
    ensures
        div_up_spec(n, k) <= bound,
{
    assert((n + k - 1) / k <= bound) by (nonlinear_arith)
        requires
            0 <= n <= k * bound,
            k >= 1,
    ;
}

/// The objects below leaves are the objects of the leaves, in their order.
pub proof fn lemma_leaves_of_leaves<T: RTreeObject>(children: Seq<RTreeNode<T>>, objects: Seq<T>)
    requires
        children.len() == objects.len(),
        forall|k: int| 0 <= k < children.len() ==> #[trigger] children[k] == RTreeNode::Leaf(objects[k]),
    ensures
        leaves_of(children) == objects,
    decreases children.len(),
{
    if children.len() == 0 {
        assert(leaves_of(children) =~= objects);
    } else {
        let rest = children.drop_last();
        assert forall|k: int| 0 <= k < rest.len() implies #[trigger] rest[k] == RTreeNode::Leaf(
            objects.drop_last()[k],
        ) by {
            assert(rest[k] == children[k]);
        }
        lemma_leaves_of_leaves(rest, objects.drop_last());
        assert(children.last() == RTreeNode::Leaf(objects.last()));
        assert(children.last().leaves() =~= seq![objects.last()]);
        assert(leaves_of(children) =~= objects);
    }
}

/// The greatest height of a tree of `depth` levels: every tree has a root.
pub open spec fn levels(depth: nat) -> nat {
    if depth >= 1 {
        depth
    } else {
        1
    }
}

/// Leaves have no height.
pub proof fn lemma_height_of_leaves<T: RTreeObject>(children: Seq<RTreeNode<T>>)
    requires
        forall|k: int| 0 <= k < children.len() ==> (#[trigger] children[k]) is Leaf,
    ensures
        height_of(children) == 0,
    decreases children.len(),
{
    if children.len() > 0 {
        let rest = children.drop_last();
        assert(rest.len() == children.len() - 1);
        assert forall|k: int| 0 <= k < rest.len() implies (#[trigger] rest[k]) is Leaf by {
            assert(rest[k] == children[k]);
            assert(children[k] is Leaf);
        }
        lemma_height_of_leaves(rest);
        let last = children[children.len() - 1];
        assert(last is Leaf);
        assert(children.last() == last);
        assert(last.height() == 0);
        assert(height_of(children) == 0);
    }
}

/// The children of `node` are the leaves of `objects`, in their order.
pub open spec fn leaves_in_order<T: RTreeObject>(node: ParentNode<T>, objects: Seq<T>) -> bool {
    &&& node.leaves() == objects
    &&& node.children@.len() == objects.len()
    &&& forall|k: int|
        0 <= k < node.children@.len() ==> #[trigger] node.children@[k] == RTreeNode::Leaf(objects[k])
}

/// Wraps `elements` as the leaves of one parent, in their order.
fn leaf_parent<T: RTreeObject>(elements: Vec<T>) -> (r: ParentNode<T>)
    ensures
        r.coherent(),
        r.bag() == elements@.to_multiset(),
        r.leaves() == elements@,
        r.height() == 1,
        r.children@.len() == elements@.len(),
        forall|k: int|
            0 <= k < r.children@.len() ==> #[trigger] r.children@[k] == RTreeNode::Leaf(elements@[k]),
{
    let mut elements = elements;
    let ghost all = elements@;
    let mut reversed: Vec<T> = Vec::new();
    assert(reversed@ =~= all.skip(elements@.len() as int).reverse());
    while elements.len() > 0
        invariant
            elements@ == all.take(elements@.len() as int),
            elements@.len() <= all.len(),
            reversed@ == all.skip(elements@.len() as int).reverse(),
        decreases elements@.len(),
    {
        let ghost before = elements@;
        let t = elements.pop().unwrap();
        reversed.push(t);
        proof {
            assert(elements@ =~= all.take(elements@.len() as int));
            assert(t == all[before.len() - 1]);
            assert(reversed@ =~= all.skip(elements@.len() as int).reverse());
        }
    }
    let mut children: Vec<RTreeNode<T>> = Vec::new();
    proof {
        assert(all.skip(0) =~= all);
    }
    while reversed.len() > 0
        invariant
            children@.len() + reversed@.len() == all.len(),
            reversed@ == all.skip(children@.len() as int).reverse(),
            forall|k: int| 0 <= k < children@.len() ==> #[trigger] children@[k] == RTreeNode::Leaf(all[k]),
        decreases reversed@.len(),
    {
        let ghost nodes = children@;
        let ghost waiting = reversed@;
        let t = reversed.pop().unwrap();
        children.push(RTreeNode::Leaf(t));
        proof {
            let rest = all.skip(nodes.len() as int);
            assert(waiting == rest.reverse());
            assert(t == waiting[waiting.len() - 1]);
            assert(t == rest[0]);
            assert(reversed@ =~= all.skip(children@.len() as int).reverse());
            assert forall|k: int| 0 <= k < children@.len() implies #[trigger] children@[k]
                == RTreeNode::Leaf(all[k]) by {
                if k < nodes.len() {
                    assert(children@[k] == nodes[k]);
                }
            }
        }
    }
    proof {
        lemma_leaves_of_leaves(children@, all);
        assert forall|k: int| 0 <= k < children@.len() implies (#[trigger] children@[k]).coherent() by {
            assert(children@[k] == RTreeNode::Leaf(all[k]));
        }
        assert forall|k: int| 0 <= k < children@.len() implies (#[trigger] children@[k]) is Leaf by {
            assert(children@[k] == RTreeNode::Leaf(all[k]));
        }
        lemma_height_of_leaves(children@);
    }
    let r = ParentNode::new_parent(children);
    proof {
        lemma_parent_coherent(r);
    }
    r
}

/// The number of levels of the subtrees of a tree of `depth` levels.
pub open spec fn level_below(depth: nat) -> nat {
    if depth >= 1 {
        (depth - 1) as nat
    } else {
        0
    }
}

/// Every cluster holds at most `unit` objects.
pub open spec fn clusters_within<T>(clusters: Seq<Vec<T>>, unit: int) -> bool {
    forall|c: int| 0 <= c < clusters.len() ==> (#[trigger] clusters[c])@.len() <= unit
}

/// Divides `elements` into clusters along the axes below `axis_remaining`,
/// and appends the clusters to `result`. Where the objects fit as many
/// clusters of `unit` objects as there are along these axes, every cluster
/// holds at most `unit` objects.
fn partition_into_clusters<T: RTreeObject>(
    elements: Vec<T>,
    axis_remaining: usize,
    number_of_clusters_on_axis: usize,
    result: &mut Vec<Vec<T>>,
    Ghost(unit): Ghost<int>,
)
    requires
        number_of_clusters_on_axis >= 1,
        axis_remaining <= PointOf::<T>::DIMENSIONS,
        unit >= 0,
        clusters_within(old(result)@, unit),
        elements@.len() <= pow(number_of_clusters_on_axis as int, axis_remaining as nat) * unit,
    ensures
        slabs_bag(final(result)@) == slabs_bag(old(result)@).add(elements@.to_multiset()),
        clusters_within(final(result)@, unit),
    decreases axis_remaining,
{
    if axis_remaining == 0 {
        let ghost clusters = result@;
        proof {
            vstd::arithmetic::power::lemma_pow0(number_of_clusters_on_axis as int);
        }
        result.push(elements);
        proof {
            assert(result@.drop_last() =~= clusters);
            assert forall|c: int| 0 <= c < result@.len() implies (#[trigger] result@[c])@.len()
                <= unit by {
                if c < clusters.len() {
                    assert(result@[c] == clusters[c]);
                }
            }
        }
    } else {
        let mut iterator = ClusterGroupIterator::new(
            elements,
            number_of_clusters_on_axis,
            axis_remaining - 1,
        );
        let ghost quota = pow(number_of_clusters_on_axis as int, (axis_remaining - 1) as nat) * unit;
        proof {
            crate::algorithm::rstar::lemma_add_empty(slabs_bag(result@).add(elements@.to_multiset()));
            assert(slabs_bag(result@).add(iterator.remaining_spec().to_multiset()) == slabs_bag(
                old(result)@,
            ).add(elements@.to_multiset()));
            // A group holds no more than the clusters of the axes below can hold.
            let k = number_of_clusters_on_axis as int;
            let below = pow(k, (axis_remaining - 1) as nat);
            assert(pow(k, axis_remaining as nat) == k * below) by {
                reveal(pow);
            }
            vstd::arithmetic::power::lemma_pow_positive(k, (axis_remaining - 1) as nat);
            assert(k * below * unit == k * (below * unit)) by (nonlinear_arith);
            assert(below * unit >= 0) by (nonlinear_arith)
                requires
                    below >= 0,
                    unit >= 0,
            ;
            lemma_div_up_bound(elements@.len() as int, k, below * unit);
        }
        loop
            invariant
                number_of_clusters_on_axis >= 1,
                1 <= axis_remaining <= PointOf::<T>::DIMENSIONS,
                unit >= 0,
                quota == pow(number_of_clusters_on_axis as int, (axis_remaining - 1) as nat) * unit,
                iterator.slab_size_spec() <= quota,
                clusters_within(result@, unit),
                slabs_bag(result@).add(iterator.remaining_spec().to_multiset()) == slabs_bag(
                    old(result)@,
                ).add(elements@.to_multiset()),
            ensures
                slabs_bag(result@) == slabs_bag(old(result)@).add(elements@.to_multiset()),
                clusters_within(result@, unit),
            decreases iterator.remaining_spec().len(),
        {
            let ghost before = iterator.remaining_spec();
            let ghost built = slabs_bag(result@);
            match iterator.next() {
                Some(slab) => {
                    proof {
                        vstd::seq_lib::lemma_multiset_commutative(slab@, iterator.remaining_spec());
                        crate::node::lemma_permutation_len(slab@ + iterator.remaining_spec(), before);
                    }
                    partition_into_clusters(
                        slab,
                        axis_remaining - 1,
                        number_of_clusters_on_axis,
                        result,
                        Ghost(unit),
                    );
                    proof {
                        broadcast use vstd::multiset::group_multiset_axioms;

                        assert(slabs_bag(result@).add(iterator.remaining_spec().to_multiset())
                            =~= built.add(before.to_multiset()));
                    }
                },
                None => {
                    proof {
                        assert(iterator.remaining_spec() =~= before);
                        vstd::seq_lib::to_multiset_len(before);
                        vstd::multiset::lemma_multiset_empty_len(before.to_multiset());
                        crate::algorithm::rstar::lemma_add_empty(slabs_bag(result@));
                    }
                    break ;
                },
            }
        }
    }
}

/// `node` is packed as a tree of `depth` levels whose nodes hold up to
/// `max_size` children: it holds no more objects than such a tree can. Where
/// its objects fit one node, they are its children. Where they do not, its
/// children are parents, each packed as a tree of one level less.
pub open spec fn packed<T: RTreeObject>(node: RTreeNode<T>, depth: nat, max_size: int) -> bool
    decreases node,
{
    match node {
        RTreeNode::Leaf(_) => true,
        RTreeNode::Parent(p) => {
            &&& p.leaves().len() <= pow(max_size, depth)
            &&& if p.leaves().len() <= max_size {
                forall|k: int| 0 <= k < p.children@.len() ==> (#[trigger] p.children@[k]) is Leaf
            } else {
                &&& depth >= 1
                &&& forall|k: int|
                    0 <= k < p.children@.len() ==> (#[trigger] p.children@[k]) is Parent && packed(
                        p.children@[k],
                        (depth - 1) as nat,
                        max_size,
                    )
            }
        },
    }
}

/// A packed node that holds more objects than a tree of one level less can
/// hold has at least two children.
pub proof fn lemma_packed_root<T: RTreeObject>(node: ParentNode<T>, depth: nat, max_size: int)
    requires
        packed(node.as_node(), depth, max_size),
        max_size >= 1,
        node.leaves().len() > max_size,
        depth >= 1,
        node.leaves().len() > pow(max_size, (depth - 1) as nat),
    ensures
        node.children@.len() >= 2,
{
    let children = node.children@;
    if children.len() == 0 {
        assert(node.leaves() =~= Seq::<T>::empty());
    } else if children.len() == 1 {
        assert(children.drop_last() =~= Seq::<RTreeNode<T>>::empty());
        assert(leaves_of(children.drop_last()) =~= Seq::<T>::empty());
        assert(children.last() == children[0]);
        assert(node.leaves() =~= children[0].leaves());
        assert(children[0] is Parent && packed(children[0], (depth - 1) as nat, max_size));
    }
}

/// Every node of `nodes` is a parent, packed as a tree of `depth` levels.
pub open spec fn all_packed<T: RTreeObject>(nodes: Seq<RTreeNode<T>>, depth: nat, max_size: int) -> bool {
    forall|k: int|
        0 <= k < nodes.len() ==> (#[trigger] nodes[k]) is Parent && packed(nodes[k], depth, max_size)
}

/// Builds the tree of `depth` levels that holds `elements`.
///
/// Where the objects fit one node they become its leaves. Otherwise they are
/// divided into clusters, evenly along every axis, and each cluster becomes a
/// subtree of one level less.
fn bulk_load_recursive<T: RTreeObject>(elements: Vec<T>, depth: usize, params: &Params) -> (r:
    ParentNode<T>)
    requires
        params.wf(),
        elements@.len() <= pow(params.max_size_spec() as int, depth as nat),
    ensures
        r.coherent(),
        r.bag() == elements@.to_multiset(),
        elements@.len() <= params.max_size_spec() ==> leaves_in_order(r, elements@),
        r.height() <= levels(depth as nat),
        packed(r.as_node(), depth as nat, params.max_size_spec() as int),
    decreases depth,
{
    let m = params.max_size();
    if elements.len() <= m {
        // The objects fit one node.
        let r = leaf_parent(elements);
        proof {
            assert forall|k: int| 0 <= k < r.children@.len() implies (#[trigger] r.children@[k]) is Leaf by {
                assert(r.children@[k] == RTreeNode::Leaf(elements@[k]));
            }
        }
        return r;
    }
    proof {
        // More objects than a node holds need more than one level.
        vstd::arithmetic::power::lemma_pow0(m as int);
        vstd::arithmetic::power::lemma_pow1(m as int);
    }
    let number_of_clusters_on_axis = calculate_number_of_clusters_on_axis::<T>(
        elements.len(),
        depth,
        params,
    );
    let ghost unit = pow(m as int, (depth - 1) as nat);
    proof {
        let n = elements@.len() as int;
        let k = number_of_clusters_on_axis as int;
        vstd::arithmetic::power::lemma_pow_positive(m as int, (depth - 1) as nat);
        lemma_div_up_covers(n, unit);
        let s = div_up_spec(n, unit);
        let kd = pow(k, PointOf::<T>::DIMENSIONS as nat);
        assert(n <= kd * unit) by (nonlinear_arith)
            requires
                n <= s * unit,
                s <= kd,
                unit >= 1,
        ;
    }
    let mut clusters: Vec<Vec<T>> = Vec::new();
    assert(slabs_bag(clusters@) == Multiset::<T>::empty());
    partition_into_clusters(
        elements,
        PointOf::<T>::DIMENSIONS,
        number_of_clusters_on_axis,
        &mut clusters,
        Ghost(unit),
    );
    let mut children: Vec<RTreeNode<T>> = Vec::new();
    proof {
        broadcast use vstd::multiset::group_multiset_axioms;

        lemma_bag_empty::<T>();
        assert(slabs_bag(clusters@) =~= elements@.to_multiset());
        assert(bag_of(children@).add(slabs_bag(clusters@)) =~= elements@.to_multiset());
    }
    while clusters.len() > 0
        invariant
            params.wf(),
            depth >= 2,
            m == params.max_size_spec(),
            unit == pow(m as int, (depth - 1) as nat),
            clusters_within(clusters@, unit),
            all_coherent(children@),
            all_packed(children@, (depth - 1) as nat, m as int),
            height_of(children@) <= depth - 1,
            bag_of(children@).add(slabs_bag(clusters@)) == elements@.to_multiset(),
        decreases clusters@.len(),
    {
        let ghost waiting = clusters@;
        let ghost nodes = children@;
        let cluster = clusters.pop().unwrap();
        proof {
            assert(waiting.drop_last() =~= clusters@);
            assert(waiting.last() == cluster);
            assert(waiting[waiting.len() - 1] == cluster);
            assert forall|c: int| 0 <= c < clusters@.len() implies (#[trigger] clusters@[c])@.len()
                <= unit by {
                assert(clusters@[c] == waiting[c]);
            }
        }
        let data = bulk_load_recursive(cluster, depth - 1, params);
        children.push(RTreeNode::Parent(data));
        proof {
            let child = RTreeNode::Parent(data);
            lemma_bag_push(nodes, child);
            assert(child.bag() == data.bag());
            assert(child == data.as_node());
            assert(children@.drop_last() =~= nodes);
            assert(children@.last() == child);
            assert(child.height() == data.height());
            assert forall|k: int| 0 <= k < children@.len() implies (#[trigger] children@[k]).coherent()
                && children@[k] is Parent && packed(children@[k], (depth - 1) as nat, m as int) by {
                if k < nodes.len() {
                    assert(children@[k] == nodes[k]);
                }
            }
            crate::algorithm::rstar::lemma_bag_assoc(
                bag_of(nodes),
                cluster@.to_multiset(),
                slabs_bag(clusters@),
            );
        }
    }
    proof {
        assert(slabs_bag(clusters@) =~= Multiset::<T>::empty());
        crate::algorithm::rstar::lemma_add_empty(bag_of(children@));
    }
    let r = ParentNode::new_parent(children);
    proof {
        lemma_parent_coherent(r);
        vstd::seq_lib::to_multiset_len(elements@);
        vstd::seq_lib::to_multiset_len(r.leaves());
    }
    r
}

/// The clusters that the root of the tree that holds `elements` is divided
/// into: each becomes a child of the root. Together they hold exactly the
/// objects of `elements`, and each of them fits a tree of one level less
/// than the tree of all.
pub fn root_clusters<T: RTreeObject>(elements: Vec<T>, params: &Params) -> (r: Vec<Vec<T>>)
    requires
        params.wf(),
        elements@.len() >= 1,
    ensures
        slabs_bag(r@) == elements@.to_multiset(),
        exists|depth: nat| #[trigger]
            is_tree_depth(depth as int, elements@.len() as int, params.max_size_spec() as int)
                && clusters_within(r@, pow(params.max_size_spec() as int, level_below(depth))),
{
    let m = params.max_size();
    let depth = tree_depth(elements.len(), m);
    let mut clusters: Vec<Vec<T>> = Vec::new();
    assert(slabs_bag(clusters@) == Multiset::<T>::empty());
    if depth == 0 {
        // A single object is a cluster of its own.
        proof {
            vstd::arithmetic::power::lemma_pow0(m as int);
        }
        clusters.push(elements);
        proof {
            broadcast use vstd::multiset::group_multiset_axioms;

            assert(clusters@.drop_last() =~= Seq::<Vec<T>>::empty());
            assert(slabs_bag(clusters@.drop_last()) == Multiset::<T>::empty());
            assert(clusters@.last()@ == elements@);
            assert(slabs_bag(clusters@) =~= elements@.to_multiset());
            assert(is_tree_depth(0, elements@.len() as int, m as int));
            assert(clusters_within(clusters@, pow(m as int, level_below(0))));
        }
        return clusters;
    }
    let number_of_clusters_on_axis = calculate_number_of_clusters_on_axis::<T>(
        elements.len(),
        depth,
        params,
    );
    let ghost unit = pow(m as int, (depth - 1) as nat);
    proof {
        let n = elements@.len() as int;
        let k = number_of_clusters_on_axis as int;
        vstd::arithmetic::power::lemma_pow_positive(m as int, (depth - 1) as nat);
        lemma_div_up_covers(n, unit);
        let s = div_up_spec(n, unit);
        let kd = pow(k, PointOf::<T>::DIMENSIONS as nat);
        assert(n <= kd * unit) by (nonlinear_arith)
            requires
                n <= s * unit,
                s <= kd,
                unit >= 1,
        ;
    }
    partition_into_clusters(
        elements,
        PointOf::<T>::DIMENSIONS,
        number_of_clusters_on_axis,
        &mut clusters,
        Ghost(unit),
    );
    proof {
        broadcast use vstd::multiset::group_multiset_axioms;

        assert(slabs_bag(clusters@) =~= elements@.to_multiset());
        assert(is_tree_depth(depth as int, elements@.len() as int, m as int));
        assert(level_below(depth as nat) == (depth - 1) as nat);
    }
    clusters
}

/// Builds the tree that holds `elements`, level by level from the top, by the
/// overlap minimizing top-down algorithm.
///
/// The tree holds exactly the objects of `elements`, and every parent keeps
/// the union of its children's envelopes.
pub fn bulk_load_sequential<T: RTreeObject>(elements: Vec<T>, params: &Params) -> (r: ParentNode<T>)
    requires
        params.wf(),
    ensures
        r.coherent(),
        r.bag() == elements@.to_multiset(),
        elements@.len() <= params.max_size_spec() ==> leaves_in_order(r, elements@),
        exists|depth: nat| #[trigger]
            is_tree_depth(depth as int, elements@.len() as int, params.max_size_spec() as int)
                && r.height() <= levels(depth) && packed(
                r.as_node(),
                depth,
                params.max_size_spec() as int,
            ),
        elements@.len() > params.max_size_spec() ==> r.children@.len() >= 2,
{
    let depth = tree_depth(elements.len(), params.max_size());
    let r = bulk_load_recursive(elements, depth, params);
    proof {
        vstd::seq_lib::to_multiset_len(elements@);
        vstd::seq_lib::to_multiset_len(r.leaves());
        if elements@.len() > params.max_size_spec() {
            vstd::arithmetic::power::lemma_pow0(params.max_size_spec() as int);
            lemma_packed_root(r, depth as nat, params.max_size_spec() as int);
        }
        assert(is_tree_depth(
            depth as nat as int,
            elements@.len() as int,
            params.max_size_spec() as int,
        ));
    }
    r
}

} // verus!
