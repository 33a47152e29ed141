//! Removing objects that a selection function selects.

use crate::aabb::{dims, envelope_contains, hi, lo, max_int, min_int};
use crate::algorithm::iterators::{
    lemma_leaves_within, lemma_selected_of_concat, lemma_selected_of_single, selected, selected_of,
};
use crate::algorithm::nearest_neighbor::lemma_bag_member;
use crate::algorithm::rstar::lemma_add_empty;
use crate::algorithm::selection_functions::{is_exact, SelectionFunction};
use crate::envelope::Envelope;
use crate::node::{
    all_coherent, all_regular, bag_of, envelope_for_children, height_of, is_union_of, leaves_of,
    lemma_bag_empty, lemma_bag_push, lemma_bag_shrink, lemma_bag_swap_remove, lemma_bag_update,
    lemma_child_height, lemma_coherent_parent, lemma_leaf_bag, lemma_parent_coherent,
    lemma_node_count_concat, lemma_node_count_single, lemma_update_same, node_count,
    node_count_of, union_hi, union_lo, ParentNode, PointOf,
    RTreeNode, ScalarOf,
};
use crate::num::RTreeNum;
use crate::object::RTreeObject;
use crate::rtree::RTree;
use vstd::multiset::Multiset;
use vstd::prelude::*;

verus! {

/// A search through a run of nodes yields nothing where it yields nothing of
/// any of them.
pub proof fn lemma_selected_of_none<T: RTreeObject, F: SelectionFunction<T>>(
    nodes: Seq<RTreeNode<T>>,
    f: F,
)
    requires
        forall|k: int| 0 <= k < nodes.len() ==> selected(#[trigger] nodes[k], f).len() == 0,
    ensures
        selected_of(nodes, f) == Seq::<T>::empty(),
    decreases nodes.len(),
{
    if nodes.len() > 0 {
        assert forall|k: int| 0 <= k < nodes.drop_last().len() implies selected(
            #[trigger] nodes.drop_last()[k],
            f,
        ).len() == 0 by {
            assert(nodes.drop_last()[k] == nodes[k]);
        }
        lemma_selected_of_none(nodes.drop_last(), f);
        assert(selected(nodes[nodes.len() - 1], f).len() == 0);
        assert(selected_of(nodes, f) =~= Seq::<T>::empty());
    }
}

/// What a search yields first of a run of nodes is what it yields first of
/// the first node of which it yields anything.
pub proof fn lemma_selected_of_first<T: RTreeObject, F: SelectionFunction<T>>(
    nodes: Seq<RTreeNode<T>>,
    f: F,
    k: int,
)
    requires
        0 <= k < nodes.len(),
        forall|j: int| 0 <= j < k ==> selected(#[trigger] nodes[j], f).len() == 0,
        selected(nodes[k], f).len() > 0,
    ensures
        selected_of(nodes, f).len() > 0,
        selected_of(nodes, f)[0] == selected(nodes[k], f)[0],
    decreases nodes.len(),
{
    let rest = nodes.drop_last();
    if k == nodes.len() - 1 {
        assert forall|j: int| 0 <= j < rest.len() implies selected(#[trigger] rest[j], f).len()
            == 0 by {
            assert(rest[j] == nodes[j]);
        }
        lemma_selected_of_none(rest, f);
    } else {
        assert forall|j: int| 0 <= j < k implies selected(#[trigger] rest[j], f).len() == 0 by {
            assert(rest[j] == nodes[j]);
        }
        assert(rest[k] == nodes[k]);
        lemma_selected_of_first(rest, f, k);
    }
}

/// Replacing a node by one of which a search yields the same changes nothing
/// of what the search yields of the run.
pub proof fn lemma_selected_update_same<T: RTreeObject, F: SelectionFunction<T>>(
    s: Seq<RTreeNode<T>>,
    j: int,
    x: RTreeNode<T>,
    f: F,
)
    requires
        0 <= j < s.len(),
        selected(x, f) == selected(s[j], f),
    ensures
        selected_of(s.update(j, x), f) == selected_of(s, f),
    decreases s.len(),
{
    let after = s.update(j, x);
    if j == s.len() - 1 {
        assert(after.drop_last() =~= s.drop_last());
        assert(after.last() == x);
    } else {
        lemma_selected_update_same(s.drop_last(), j, x, f);
        assert(after.drop_last() =~= s.drop_last().update(j, x));
        assert(after.last() == s.last());
    }
}

/// Taking a node out of regular nodes by putting the last node in its place
/// leaves regular nodes.
pub proof fn lemma_regular_swap_remove<T: RTreeObject>(
    s: Seq<RTreeNode<T>>,
    j: int,
    depth: nat,
    lo: int,
    hi: int,
)
    requires
        0 <= j < s.len(),
        all_regular(s, depth, lo, hi),
    ensures
        all_regular(s.update(j, s.last()).drop_last(), depth, lo, hi),
{
    let after = s.update(j, s.last()).drop_last();
    assert forall|k: int| 0 <= k < after.len() implies (#[trigger] after[k]).regular(
        depth,
        lo,
        hi,
    ) by {
        if k == j {
            assert(after[k] == s[s.len() - 1]);
        } else {
            assert(after[k] == s[k]);
        }
    }
}

/// Removes from below `node` the first object that a search with
/// `removal_function` yields, and returns it.
///
/// The object leaves the children of its parent, the last child taking its
/// place, and a parent that is left without children leaves with it. The
/// envelopes above are computed anew. Where the search yields nothing, the
/// tree is as it was: it has the same leaves in the same order, the same
/// envelope and the same height.
pub fn remove<T: RTreeObject, R: SelectionFunction<T>>(
    node: &mut ParentNode<T>,
    removal_function: &R,
) -> (r: Option<T>)
    requires
        removal_function.wf(),
        old(node).coherent(),
    ensures
        final(node).coherent(),
        r is None <==> selected(old(node).as_node(), *removal_function).len() == 0,
        r is None ==> {
            &&& final(node).leaves() == old(node).leaves()
            &&& final(node).envelope == old(node).envelope
            &&& final(node).height() == old(node).height()
            &&& final(node).children@.len() == old(node).children@.len()
            &&& selected(final(node).as_node(), *removal_function).len() == 0
        },
        r is Some ==> {
            &&& r->0 == selected(old(node).as_node(), *removal_function)[0]
            &&& removal_function.unpacks_leaf(r->0)
            &&& final(node).bag().insert(r->0) == old(node).bag()
        },
        forall|depth: nat, lo: int, hi: int|
            #![trigger old(node).regular_root(depth, lo, hi)]
            old(node).regular_root(depth, lo, hi) && (r is Some ==> lo <= 1) ==> final(node)
                .regular_root(depth, lo, hi),
    decreases old(node).height(),
{
    let ghost children = node.children@;
    proof {
        lemma_coherent_parent(*node);
    }
    if !removal_function.should_unpack_parent(&node.envelope) {
        return None;
    }
    let mut index: usize = 0;
    while index < node.children.len()
        invariant
            removal_function.wf(),
            index <= node.children@.len(),
            node.envelope == old(node).envelope,
            children == old(node).children@,
            node.children@.len() == children.len(),
            all_coherent(node.children@),
            is_union_of(node.envelope.bounds(), node.children@),
            leaves_of(node.children@) == leaves_of(children),
            height_of(node.children@) == height_of(children),
            selected_of(node.children@, *removal_function) == selected_of(children, *removal_function),
            removal_function.unpacks_parent(old(node).envelope),
            forall|j: int|
                0 <= j < index ==> selected(#[trigger] node.children@[j], *removal_function).len()
                    == 0,
            forall|depth: nat, lo: int, hi: int|
                #![trigger all_regular(children, depth, lo, hi)]
                all_regular(children, depth, lo, hi) ==> all_regular(node.children@, depth, lo, hi),
        decreases node.children@.len() - index,
    {
        let ghost current = node.children@;
        proof {
            lemma_child_height(current, index as int);
        }
        if node.children[index].is_leaf() {
            let hit = match &node.children[index] {
                RTreeNode::Leaf(b) => removal_function.should_unpack_leaf(b),
                RTreeNode::Parent(_) => false,
            };
            if hit {
                let child = node.children.swap_remove(index);
                node.envelope = envelope_for_children(node.children.as_slice());
                proof {
                    lemma_bag_swap_remove(current, index as int);
                    lemma_parent_coherent(*node);
                    lemma_selected_of_first(current, *removal_function, index as int);
                    assert forall|depth: nat, lo: int, hi: int|
                        #![trigger old(node).regular_root(depth, lo, hi)]
                        old(node).regular_root(depth, lo, hi) implies node.regular_root(
                        depth,
                        lo,
                        hi,
                    ) by {
                        assert(all_regular(children, (depth - 1) as nat, lo, hi));
                        lemma_regular_swap_remove(current, index as int, (depth - 1) as nat, lo, hi);
                    }
                }
                match child {
                    RTreeNode::Leaf(t) => {
                        proof {
                            lemma_leaf_bag(t);
                        }
                        return Some(t);
                    },
                    RTreeNode::Parent(_) => {
                        return None;
                    },
                }
            }
        } else {
            let (found, now_empty) = match &mut node.children[index] {
                RTreeNode::Parent(data) => {
                    let found = remove(data, removal_function);
                    let now_empty = data.children.len() == 0;
                    (found, now_empty)
                },
                RTreeNode::Leaf(_) => (None, false),
            };
            let ghost after = node.children@;
            proof {
                assert(after =~= current.update(index as int, after[index as int]));
                assert(all_coherent(after)) by {
                    assert forall|k: int| 0 <= k < after.len() implies (#[trigger] after[k]).coherent() by {
                        if k != index {
                            assert(after[k] == current[k]);
                        }
                    }
                }
            }
            if found.is_some() {
                proof {
                    lemma_bag_update(current, index as int, after[index as int]);
                    assert(after[index as int].bag() == after[index as int]->Parent_0.bag());
                    assert(current[index as int].bag() == current[index as int]->Parent_0.bag());
                    lemma_bag_shrink(
                        bag_of(after),
                        current[index as int].bag(),
                        bag_of(current),
                        after[index as int].bag(),
                        found->0,
                    );
                    lemma_selected_of_first(current, *removal_function, index as int);
                }
                if now_empty {
                    node.children.swap_remove(index);
                    proof {
                        lemma_bag_swap_remove(after, index as int);
                        lemma_bag_empty::<T>();
                        assert(after[index as int]->Parent_0.children@ =~= Seq::empty());
                        lemma_add_empty(bag_of(node.children@));
                    }
                }
                node.envelope = envelope_for_children(node.children.as_slice());
                proof {
                    lemma_parent_coherent(*node);
                    assert forall|depth: nat, lo: int, hi: int|
                        #![trigger old(node).regular_root(depth, lo, hi)]
                        old(node).regular_root(depth, lo, hi) && lo <= 1 implies node.regular_root(
                        depth,
                        lo,
                        hi,
                    ) by {
                        assert(all_regular(children, (depth - 1) as nat, lo, hi));
                        assert(all_regular(current, (depth - 1) as nat, lo, hi));
                        assert(current[index as int].regular((depth - 1) as nat, lo, hi));
                        assert(current[index as int]->Parent_0.regular_root(
                            (depth - 1) as nat,
                            lo,
                            hi,
                        ));
                        if now_empty {
                            lemma_regular_swap_remove(
                                current,
                                index as int,
                                (depth - 1) as nat,
                                lo,
                                hi,
                            );
                            assert(current.update(index as int, current.last()).drop_last()
                                =~= after.update(index as int, after.last()).drop_last());
                        } else {
                            assert(after[index as int].regular((depth - 1) as nat, lo, hi));
                            assert forall|k: int| 0 <= k < after.len() implies (
                            #[trigger] after[k]).regular((depth - 1) as nat, lo, hi) by {
                                if k != index {
                                    assert(after[k] == current[k]);
                                }
                            }
                        }
                    }
                }
                return found;
            }
            proof {
                lemma_update_same(current, index as int, after[index as int]);
                assert(selected(after[index as int], *removal_function) =~= selected(
                    current[index as int],
                    *removal_function,
                ));
                lemma_selected_update_same(
                    current,
                    index as int,
                    after[index as int],
                    *removal_function,
                );
                assert forall|j: int| 0 <= j < index + 1 implies selected(
                    #[trigger] after[j],
                    *removal_function,
                ).len() == 0 by {
                    if j < index {
                        assert(after[j] == current[j]);
                    }
                }
                assert(is_union_of(node.envelope.bounds(), after));
                assert forall|depth: nat, lo: int, hi: int|
                    #![trigger all_regular(children, depth, lo, hi)]
                    all_regular(children, depth, lo, hi) implies all_regular(after, depth, lo, hi) by {
                    assert(all_regular(current, depth, lo, hi));
                    assert(current[index as int].regular(depth, lo, hi));
                    assert(current[index as int]->Parent_0.regular_root(depth, lo, hi));
                    assert forall|k: int| 0 <= k < after.len() implies (#[trigger] after[k]).regular(
                        depth,
                        lo,
                        hi,
                    ) by {
                        if k != index {
                            assert(after[k] == current[k]);
                        }
                    }
                }
            }
        }
        index = index + 1;
    }
    proof {
        lemma_selected_of_none(node.children@, *removal_function);
        lemma_parent_coherent(*node);
        assert forall|depth: nat, lo: int, hi: int|
            #![trigger old(node).regular_root(depth, lo, hi)]
            old(node).regular_root(depth, lo, hi) implies node.regular_root(depth, lo, hi) by {
            assert(all_regular(children, (depth - 1) as nat, lo, hi));
        }
    }
    None
}


/// A step of the walk of a draining iterator: a node, the place of the child
/// that the walk looks at next, and the number of objects that it has taken
/// from below the node.
pub type Frame<T> = (ParentNode<T>, usize, usize);

/// The objects below the nodes of `frames`.
pub open spec fn frames_bag<T: RTreeObject>(frames: Seq<Frame<T>>) -> Multiset<T>
    decreases frames.len(),
{
    if frames.len() == 0 {
        Multiset::empty()
    } else {
        frames_bag(frames.drop_last()).add(bag_of(frames.last().0.children@))
    }
}

/// The number of objects that the walk has taken from below the nodes of
/// `frames`.
pub open spec fn frames_removed<T: RTreeObject>(frames: Seq<Frame<T>>) -> nat
    decreases frames.len(),
{
    if frames.len() == 0 {
        0
    } else {
        frames_removed(frames.drop_last()) + frames.last().2 as nat
    }
}

/// A bound on the steps that the walk has yet to take: one for each node of
/// `frames`, and two for each node below a child that it has not looked at.
pub open spec fn frames_weight<T: RTreeObject>(frames: Seq<Frame<T>>) -> nat
    decreases frames.len(),
{
    if frames.len() == 0 {
        0
    } else {
        frames_weight(frames.drop_last()) + 1 + 2 * node_count_of(
            frames.last().0.children@.skip(frames.last().1 as int),
        )
    }
}

/// `f` accepts no object below `node`.
pub open spec fn none_accepted<T: RTreeObject, F: SelectionFunction<T>>(node: RTreeNode<T>, f: F) -> bool {
    forall|t: T| node.bag().count(t) > 0 ==> !#[trigger] f.unpacks_leaf(t)
}

/// On axis `i`, the lower bound of the node that the walk has taken out of
/// the node of frame `k`: the node of the next frame.
pub open spec fn hole_lo<T: RTreeObject>(frames: Seq<Frame<T>>, k: int, i: int) -> int {
    if k + 1 < frames.len() {
        lo(frames[k + 1].0.envelope.bounds(), i)
    } else {
        ScalarOf::<T>::upper_limit()
    }
}

/// On axis `i`, the upper bound of the node that the walk has taken out of
/// the node of frame `k`.
pub open spec fn hole_hi<T: RTreeObject>(frames: Seq<Frame<T>>, k: int, i: int) -> int {
    if k + 1 < frames.len() {
        hi(frames[k + 1].0.envelope.bounds(), i)
    } else {
        ScalarOf::<T>::lower_limit()
    }
}

/// The envelope of the node of frame `k` is the union of the envelopes of its
/// children and of the node that the walk has taken out of it.
pub open spec fn frame_untouched<T: RTreeObject>(frames: Seq<Frame<T>>, k: int) -> bool {
    forall|i: int|
        #![trigger union_lo(frames[k].0.children@, i)]
        #![trigger union_hi(frames[k].0.children@, i)]
        0 <= i < dims::<PointOf<T>>() ==> {
            &&& lo(frames[k].0.envelope.bounds(), i) == min_int(
                union_lo(frames[k].0.children@, i),
                hole_lo(frames, k, i),
            )
            &&& hi(frames[k].0.envelope.bounds(), i) == max_int(
                union_hi(frames[k].0.children@, i),
                hole_hi(frames, k, i),
            )
        }
}

/// The envelope of the node of frame `k` lies around the envelopes of its
/// children and of the node that the walk has taken out of it.
pub open spec fn frame_encloses<T: RTreeObject>(frames: Seq<Frame<T>>, k: int) -> bool {
    &&& forall|j: int|
        0 <= j < frames[k].0.children@.len() ==> envelope_contains(
            frames[k].0.envelope.bounds(),
            (#[trigger] frames[k].0.children@[j]).bounds(),
        )
    &&& k + 1 < frames.len() ==> envelope_contains(
        frames[k].0.envelope.bounds(),
        frames[k + 1].0.envelope.bounds(),
    )
}

/// What holds of frame `k` of a walk with `f`: its children are coherent and
/// within its envelope; while nothing has been taken from below it, its
/// envelope is their union; and where `f` prunes no parent above an object
/// that it selects, it accepts nothing below the children that the walk has
/// passed.
pub open spec fn frame_wf<T: RTreeObject, F: SelectionFunction<T>>(frames: Seq<Frame<T>>, k: int, f: F) -> bool {
    &&& frames[k].1 <= frames[k].0.children@.len()
    &&& all_coherent(frames[k].0.children@)
    &&& frame_encloses(frames, k)
    &&& frames[k].2 == 0 ==> frame_untouched(frames, k)
    &&& is_exact(f) ==> forall|j: int|
        0 <= j < frames[k].1 ==> none_accepted(#[trigger] frames[k].0.children@[j], f)
    &&& k + 1 < frames.len() ==> frame_entered(frames[k], f)
}

/// The walk looks through the children of the node of `frame`: it has passed
/// some of them, or `f` accepts the envelope of the node.
pub open spec fn frame_entered<T: RTreeObject, F: SelectionFunction<T>>(frame: Frame<T>, f: F) -> bool {
    frame.1 > 0 || f.unpacks_parent(frame.0.envelope)
}

/// The objects that the walk has yet to yield of the node of `frame`: what a
/// search with `f` yields of the children that it has not passed, where it
/// looks through them.
pub open spec fn frame_pending<T: RTreeObject, F: SelectionFunction<T>>(frame: Frame<T>, f: F) -> Multiset<
    T,
> {
    if frame_entered(frame, f) {
        selected_of(frame.0.children@.skip(frame.1 as int), f).to_multiset()
    } else {
        Multiset::empty()
    }
}

/// The objects that the walk has yet to yield.
pub open spec fn frames_pending<T: RTreeObject, F: SelectionFunction<T>>(frames: Seq<Frame<T>>, f: F) -> Multiset<
    T,
>
    decreases frames.len(),
{
    if frames.len() == 0 {
        Multiset::empty()
    } else {
        frames_pending(frames.drop_last(), f).add(frame_pending(frames.last(), f))
    }
}

/// What a search yields of the nodes from a place on is what it yields of the
/// node at that place, then what it yields of those after it.
pub proof fn lemma_selected_skip<T: RTreeObject, F: SelectionFunction<T>>(s: Seq<RTreeNode<T>>, j: int, f: F)
    requires
        0 <= j < s.len(),
    ensures
        selected_of(s.skip(j), f) == selected(s[j], f) + selected_of(s.skip(j + 1), f),
{
    assert(s.skip(j) =~= seq![s[j]] + s.skip(j + 1));
    lemma_selected_of_concat(seq![s[j]], s.skip(j + 1), f);
    lemma_selected_of_single(s[j], f);
}

/// A search yields nothing of nodes of each of which it yields nothing.
pub proof fn lemma_selected_passed<T: RTreeObject, F: SelectionFunction<T>>(
    s: Seq<RTreeNode<T>>,
    a: int,
    b: int,
    f: F,
)
    requires
        0 <= a <= b <= s.len(),
        forall|j: int| a <= j < b ==> selected(#[trigger] s[j], f).len() == 0,
    ensures
        selected_of(s.skip(a), f) == selected_of(s.skip(b), f),
    decreases b - a,
{
    if a < b {
        lemma_selected_skip(s, a, f);
        lemma_selected_passed(s, a + 1, b, f);
        assert(selected(s[a], f) =~= Seq::<T>::empty());
        assert(selected(s[a], f) + selected_of(s.skip(a + 1), f) =~= selected_of(s.skip(a + 1), f));
    }
}

/// Taking a node out by putting the last node in its place takes what a
/// search yields of it out of what the search yields from its place on.
pub proof fn lemma_selected_swap_remove<T: RTreeObject, F: SelectionFunction<T>>(
    s: Seq<RTreeNode<T>>,
    j: int,
    f: F,
)
    requires
        0 <= j < s.len(),
    ensures
        selected_of(s.update(j, s.last()).drop_last().skip(j), f).to_multiset().add(
            selected(s[j], f).to_multiset(),
        ) == selected_of(s.skip(j), f).to_multiset(),
{
    broadcast use vstd::multiset::group_multiset_axioms;

    let after = s.update(j, s.last()).drop_last();
    let last = s.len() - 1;
    lemma_selected_skip(s, j, f);
    vstd::seq_lib::lemma_multiset_commutative(selected(s[j], f), selected_of(s.skip(j + 1), f));
    if j == last {
        assert(after.skip(j) =~= Seq::<RTreeNode<T>>::empty());
        assert(s.skip(j + 1) =~= Seq::<RTreeNode<T>>::empty());
    } else {
        let middle = s.subrange(j + 1, last);
        assert(after.skip(j) =~= seq![s[last]] + middle);
        assert(s.skip(j + 1) =~= middle + seq![s[last]]);
        lemma_selected_of_concat(seq![s[last]], middle, f);
        lemma_selected_of_concat(middle, seq![s[last]], f);
        vstd::seq_lib::lemma_multiset_commutative(selected_of(seq![s[last]], f), selected_of(middle, f));
        vstd::seq_lib::lemma_multiset_commutative(selected_of(middle, f), selected_of(seq![s[last]], f));
    }
    assert(selected_of(after.skip(j), f).to_multiset().add(selected(s[j], f).to_multiset())
        =~= selected_of(s.skip(j), f).to_multiset());
}

/// Putting a node into the place of another, which goes to the end, leaves
/// what a search yields after that place as it was from it on.
pub proof fn lemma_selected_attach<T: RTreeObject, F: SelectionFunction<T>>(
    s: Seq<RTreeNode<T>>,
    j: int,
    v: RTreeNode<T>,
    f: F,
)
    requires
        0 <= j < s.len(),
    ensures
        selected_of(s.update(j, v).push(s[j]).skip(j + 1), f).to_multiset() == selected_of(
            s.skip(j),
            f,
        ).to_multiset(),
{
    broadcast use vstd::multiset::group_multiset_axioms;

    let after = s.update(j, v).push(s[j]);
    let rest = s.skip(j + 1);
    lemma_selected_skip(s, j, f);
    assert(after.skip(j + 1) =~= rest + seq![s[j]]);
    lemma_selected_of_concat(rest, seq![s[j]], f);
    lemma_selected_of_single(s[j], f);
    vstd::seq_lib::lemma_multiset_commutative(selected_of(rest, f), selected(s[j], f));
    vstd::seq_lib::lemma_multiset_commutative(selected(s[j], f), selected_of(rest, f));
    assert(selected_of(after.skip(j + 1), f).to_multiset() =~= selected_of(s.skip(j), f).to_multiset());
}

/// What holds of the frames of a walk with `f`.
pub open spec fn walk_wf<T: RTreeObject, F: SelectionFunction<T>>(frames: Seq<Frame<T>>, f: F) -> bool {
    forall|k: int| 0 <= k < frames.len() ==> frame_wf(frames, k, f)
}

/// Every parent at or below `node` has a child.
pub open spec fn populated<T: RTreeObject>(node: RTreeNode<T>) -> bool
    decreases node,
{
    match node {
        RTreeNode::Leaf(_) => true,
        RTreeNode::Parent(p) => p.children@.len() >= 1 && forall|k: int|
            0 <= k < p.children@.len() ==> populated(#[trigger] p.children@[k]),
    }
}

/// Every parent at or below `nodes` has a child.
pub open spec fn all_populated<T: RTreeObject>(nodes: Seq<RTreeNode<T>>) -> bool {
    forall|k: int| 0 <= k < nodes.len() ==> populated(#[trigger] nodes[k])
}

/// Every parent below the nodes of `frames` has a child.
pub open spec fn walk_populated<T: RTreeObject>(frames: Seq<Frame<T>>) -> bool {
    forall|k: int| #![trigger frames[k]] 0 <= k < frames.len() ==> all_populated(frames[k].0.children@)
}

/// The leaves below the nodes of `frames` are all `depth` levels below the
/// first of them, and no parent below them is without children.
pub open spec fn walk_balanced<T: RTreeObject>(frames: Seq<Frame<T>>, depth: nat) -> bool {
    &&& depth >= frames.len()
    &&& forall|k: int|
        #![trigger frames[k]]
        0 <= k < frames.len() ==> all_regular(
            frames[k].0.children@,
            (depth - 1 - k) as nat,
            1,
            usize::MAX as int,
        )
}

/// Replacing one node by another changes the lower and upper bounds of the
/// union as taking the one out and putting the other in.
pub proof fn lemma_union_update<T: RTreeObject>(s: Seq<RTreeNode<T>>, j: int, v: RTreeNode<T>, i: int)
    requires
        0 <= j < s.len(),
    ensures
        min_int(union_lo(s.update(j, v), i), lo(s[j].bounds(), i)) == min_int(
            union_lo(s, i),
            lo(v.bounds(), i),
        ),
        max_int(union_hi(s.update(j, v), i), hi(s[j].bounds(), i)) == max_int(
            union_hi(s, i),
            hi(v.bounds(), i),
        ),
    decreases s.len(),
{
    let after = s.update(j, v);
    if j == s.len() - 1 {
        assert(after.drop_last() =~= s.drop_last());
        assert(after.last() == v);
    } else {
        lemma_union_update(s.drop_last(), j, v, i);
        assert(after.drop_last() =~= s.drop_last().update(j, v));
        assert(after.last() == s.last());
        assert(s.drop_last()[j] == s[j]);
    }
}

/// Taking a node out by putting the last node in its place takes its bounds
/// out of the union.
pub proof fn lemma_union_swap_remove<T: RTreeObject>(s: Seq<RTreeNode<T>>, j: int, i: int)
    requires
        0 <= j < s.len(),
    ensures
        min_int(union_lo(s.update(j, s.last()).drop_last(), i), lo(s[j].bounds(), i)) == union_lo(
            s,
            i,
        ),
        max_int(union_hi(s.update(j, s.last()).drop_last(), i), hi(s[j].bounds(), i)) == union_hi(
            s,
            i,
        ),
{
    let after = s.update(j, s.last()).drop_last();
    if j == s.len() - 1 {
        assert(after =~= s.drop_last());
    } else {
        assert(after =~= s.drop_last().update(j, s.last()));
        assert(s.drop_last()[j] == s[j]);
        lemma_union_update(s.drop_last(), j, s.last(), i);
    }
}

/// Putting a node into the place of another, which goes to the end, puts its
/// bounds into the union.
pub proof fn lemma_union_attach<T: RTreeObject>(s: Seq<RTreeNode<T>>, j: int, v: RTreeNode<T>, i: int)
    requires
        0 <= j < s.len(),
    ensures
        union_lo(s.update(j, v).push(s[j]), i) == min_int(union_lo(s, i), lo(v.bounds(), i)),
        union_hi(s.update(j, v).push(s[j]), i) == max_int(union_hi(s, i), hi(v.bounds(), i)),
{
    let after = s.update(j, v).push(s[j]);
    assert(after.drop_last() =~= s.update(j, v));
    assert(after.last() == s[j]);
    lemma_union_update(s, j, v, i);
}

/// The union of envelopes that lie in a box lies in the box, or is empty.
pub proof fn lemma_union_within<T: RTreeObject>(e: crate::aabb::AABB<PointOf<T>>, s: Seq<RTreeNode<T>>, i: int)
    requires
        0 <= i < dims::<PointOf<T>>(),
        forall|j: int| 0 <= j < s.len() ==> envelope_contains(e, (#[trigger] s[j]).bounds()),
    ensures
        lo(e, i) <= union_lo(s, i),
        union_hi(s, i) <= hi(e, i),
    decreases s.len(),
{
    crate::node::lemma_bounds_in_range(e, i);
    if s.len() > 0 {
        assert forall|j: int| 0 <= j < s.drop_last().len() implies envelope_contains(
            e,
            (#[trigger] s.drop_last()[j]).bounds(),
        ) by {
            assert(s.drop_last()[j] == s[j]);
        }
        lemma_union_within(e, s.drop_last(), i);
        assert(envelope_contains(e, s[s.len() - 1].bounds()));
    }
}

/// The nodes from a place on are the node at that place and those after it.
pub proof fn lemma_count_skip<T: RTreeObject>(s: Seq<RTreeNode<T>>, j: int)
    requires
        0 <= j < s.len(),
    ensures
        node_count_of(s.skip(j)) == node_count(s[j]) + node_count_of(s.skip(j + 1)),
{
    assert(s.skip(j) =~= seq![s[j]] + s.skip(j + 1));
    lemma_node_count_concat(seq![s[j]], s.skip(j + 1));
    lemma_node_count_single(s[j]);
}

/// Taking a node out by putting the last node in its place takes its nodes
/// out of the count of the nodes from its place on.
pub proof fn lemma_count_swap_remove<T: RTreeObject>(s: Seq<RTreeNode<T>>, j: int)
    requires
        0 <= j < s.len(),
    ensures
        node_count_of(s.update(j, s.last()).drop_last().skip(j)) + node_count(s[j]) == node_count_of(
            s.skip(j),
        ),
{
    let after = s.update(j, s.last()).drop_last();
    let last = s.len() - 1;
    lemma_count_skip(s, j);
    if j == last {
        assert(after.skip(j) =~= Seq::<RTreeNode<T>>::empty());
        assert(s.skip(j + 1) =~= Seq::<RTreeNode<T>>::empty());
    } else {
        let middle = s.subrange(j + 1, last);
        assert(after.skip(j) =~= seq![s[last]] + middle);
        assert(s.skip(j + 1) =~= middle + seq![s[last]]);
        lemma_node_count_concat(seq![s[last]], middle);
        lemma_node_count_concat(middle, seq![s[last]]);
    }
}

/// Putting a node into the place of another, which goes to the end, leaves
/// the count of the nodes after that place as the count was from it on.
pub proof fn lemma_count_attach<T: RTreeObject>(s: Seq<RTreeNode<T>>, j: int, v: RTreeNode<T>)
    requires
        0 <= j < s.len(),
    ensures
        node_count_of(s.update(j, v).push(s[j]).skip(j + 1)) == node_count_of(s.skip(j)),
{
    let after = s.update(j, v).push(s[j]);
    let rest = s.skip(j + 1);
    lemma_count_skip(s, j);
    assert(after.skip(j + 1) =~= rest + seq![s[j]]);
    lemma_node_count_concat(rest, seq![s[j]]);
    lemma_node_count_single(s[j]);
}

/// A selection function that prunes no parent above an object that it selects
/// accepts nothing below the children of a node that it prunes.
pub proof fn lemma_pruned_none_accepted<T: RTreeObject, F: SelectionFunction<T>>(
    node: ParentNode<T>,
    f: F,
    j: int,
)
    requires
        is_exact(f),
        !f.unpacks_parent(node.envelope),
        all_coherent(node.children@),
        0 <= j < node.children@.len(),
        envelope_contains(node.envelope.bounds(), node.children@[j].bounds()),
    ensures
        none_accepted(node.children@[j], f),
{
    let child = node.children@[j];
    assert forall|t: T| child.bag().count(t) > 0 implies !#[trigger] f.unpacks_leaf(t) by {
        vstd::seq_lib::to_multiset_contains(child.leaves(), t);
        let m = choose|m: int| 0 <= m < child.leaves().len() && child.leaves()[m] == t;
        lemma_leaves_within(child, m);
        assert(envelope_contains(node.envelope.bounds(), t.envelope_spec().bounds()));
    }
}

/// Where a selection function accepts nothing below any of some nodes, it
/// accepts none of the objects below them.
pub proof fn lemma_none_accepted_run<T: RTreeObject, F: SelectionFunction<T>>(
    nodes: Seq<RTreeNode<T>>,
    f: F,
    t: T,
)
    requires
        forall|j: int| 0 <= j < nodes.len() ==> none_accepted(#[trigger] nodes[j], f),
        bag_of(nodes).count(t) > 0,
    ensures
        !f.unpacks_leaf(t),
{
    let at = lemma_bag_member(nodes, t);
    let node = nodes[at.0];
    assert(none_accepted(node, f));
    vstd::seq_lib::to_multiset_contains(node.leaves(), t);
    assert(node.leaves().contains(t));
}

/// What a look through the children of a node comes to.
pub enum Scan<T: RTreeObject> {
    /// An object that the selection function accepts, taken out of the node.
    Found(T),
    /// A parent, taken out of the node, to look through next.
    Descend(ParentNode<T>),
    /// No child is left to look at.
    Exhausted,
}

/// Looks through the children of `node` from the place `index` on. It passes
/// the objects that `f` does not accept, and takes out the first child that
/// is an object that `f` accepts or a parent; the last child takes its
/// place.
pub fn scan_children<T: RTreeObject, R: SelectionFunction<T>>(
    node: &mut ParentNode<T>,
    index: &mut usize,
    f: &R,
) -> (r: Scan<T>)
    requires
        f.wf(),
        *old(index) <= old(node).children@.len(),
    ensures
        final(node).envelope == old(node).envelope,
        *old(index) <= *final(index) <= final(node).children@.len(),
        forall|j: int|
            *old(index) <= j < *final(index) ==> (#[trigger] old(node).children@[j]) is Leaf
                && !f.unpacks_leaf(old(node).children@[j]->Leaf_0),
        r is Exhausted ==> final(node).children@ == old(node).children@,
        r is Exhausted ==> *final(index) == final(node).children@.len(),
        !(r is Exhausted) ==> {
            &&& *final(index) < old(node).children@.len()
            &&& final(node).children@ == old(node).children@.update(
                *final(index) as int,
                old(node).children@.last(),
            ).drop_last()
        },
        r is Found ==> old(node).children@[*final(index) as int] == RTreeNode::Leaf(r->Found_0)
            && f.unpacks_leaf(r->Found_0),
        r is Descend ==> old(node).children@[*final(index) as int] == RTreeNode::Parent(r->Descend_0),
{
    while *index < node.children.len()
        invariant
            f.wf(),
            node.children@ == old(node).children@,
            node.envelope == old(node).envelope,
            *old(index) <= *index <= node.children@.len(),
            forall|j: int|
                *old(index) <= j < *index ==> (#[trigger] old(node).children@[j]) is Leaf
                    && !f.unpacks_leaf(old(node).children@[j]->Leaf_0),
        decreases node.children@.len() - *index,
    {
        let hit = match &node.children[*index] {
            RTreeNode::Leaf(leaf) => f.should_unpack_leaf(leaf),
            RTreeNode::Parent(_) => true,
        };
        if hit {
            let child = node.children.swap_remove(*index);
            return match child {
                RTreeNode::Leaf(data) => Scan::Found(data),
                RTreeNode::Parent(data) => Scan::Descend(data),
            };
        }
        *index = *index + 1;
    }
    Scan::Exhausted
}

/// The bounds of a union are numbers of the coordinate type.
pub proof fn lemma_union_in_range<T: RTreeObject>(s: Seq<RTreeNode<T>>, i: int)
    ensures
        ScalarOf::<T>::lower_limit() <= union_lo(s, i) <= ScalarOf::<T>::upper_limit(),
        ScalarOf::<T>::lower_limit() <= union_hi(s, i) <= ScalarOf::<T>::upper_limit(),
    decreases s.len(),
{
    crate::node::lemma_limits_of::<T>();
    if s.len() > 0 {
        lemma_union_in_range(s.drop_last(), i);
        crate::node::lemma_bounds_in_range(s.last().bounds(), i);
    }
}

/// The envelope of a coherent node lies around the envelopes of its
/// children.
pub proof fn lemma_coherent_encloses<T: RTreeObject>(node: ParentNode<T>)
    requires
        node.coherent(),
    ensures
        forall|j: int|
            0 <= j < node.children@.len() ==> envelope_contains(
                node.envelope.bounds(),
                (#[trigger] node.children@[j]).bounds(),
            ),
{
    assert forall|j: int| 0 <= j < node.children@.len() implies envelope_contains(
        node.envelope.bounds(),
        (#[trigger] node.children@[j]).bounds(),
    ) by {
        assert forall|i: int|
            #![trigger lo(node.envelope.bounds(), i)]
            #![trigger hi(node.envelope.bounds(), i)]
            #![trigger lo(node.children@[j].bounds(), i)]
            #![trigger hi(node.children@[j].bounds(), i)]
            0 <= i < dims::<PointOf<T>>() implies lo(node.envelope.bounds(), i) <= lo(
            node.children@[j].bounds(),
            i,
        ) && hi(node.children@[j].bounds(), i) <= hi(node.envelope.bounds(), i) by {
            crate::algorithm::iterators::lemma_union_around(node.children@, j, i);
        }
    }
}

/// Fewer nodes lie after a later place.
pub proof fn lemma_count_skip_monotone<T: RTreeObject>(s: Seq<RTreeNode<T>>, a: int, b: int)
    requires
        0 <= a <= b <= s.len(),
    ensures
        node_count_of(s.skip(b)) <= node_count_of(s.skip(a)),
    decreases b - a,
{
    if a < b {
        lemma_count_skip(s, a);
        lemma_count_skip_monotone(s, a + 1, b);
    }
}

/// The frames below a frame whose envelope has not changed are as they were.
pub proof fn lemma_frames_below<T: RTreeObject, F: SelectionFunction<T>>(
    before: Seq<Frame<T>>,
    after: Seq<Frame<T>>,
    n: int,
    f: F,
)
    requires
        walk_wf(before, f),
        0 <= n < before.len(),
        n < after.len(),
        forall|k: int| 0 <= k < n ==> after[k] == before[k],
        after[n].0.envelope == before[n].0.envelope,
    ensures
        forall|k: int| 0 <= k < n ==> frame_wf(after, k, f),
{
    assert forall|k: int| 0 <= k < n implies frame_wf(after, k, f) by {
        assert(frame_wf(before, k, f));
        assert(after[k] == before[k]);
        assert(after[k + 1].0.envelope == before[k + 1].0.envelope);
        assert(frame_encloses(after, k));
        if after[k].2 == 0 {
            assert(frame_untouched(before, k));
            assert forall|i: int|
                #![trigger union_lo(after[k].0.children@, i)]
                #![trigger union_hi(after[k].0.children@, i)]
                0 <= i < dims::<PointOf<T>>() implies {
                &&& lo(after[k].0.envelope.bounds(), i) == min_int(
                    union_lo(after[k].0.children@, i),
                    hole_lo(after, k, i),
                )
                &&& hi(after[k].0.envelope.bounds(), i) == max_int(
                    union_hi(after[k].0.children@, i),
                    hole_hi(after, k, i),
                )
            } by {
                assert(hole_lo(after, k, i) == hole_lo(before, k, i));
                assert(hole_hi(after, k, i) == hole_hi(before, k, i));
                assert(union_lo(before[k].0.children@, i) == union_lo(after[k].0.children@, i));
                assert(union_hi(before[k].0.children@, i) == union_hi(after[k].0.children@, i));
            }
        }
    }
}

/// A frame with a coherent node that the walk has not looked into is as a
/// frame of a walk should be.
pub proof fn lemma_fresh_frame<T: RTreeObject, F: SelectionFunction<T>>(frames: Seq<Frame<T>>, f: F)
    requires
        frames.len() >= 1,
        frames.last().0.coherent(),
        frames.last().1 == 0 || (frames.last().1 == frames.last().0.children@.len() && (is_exact(f)
            ==> forall|j: int|
            0 <= j < frames.last().0.children@.len() ==> none_accepted(
                #[trigger] frames.last().0.children@[j],
                f,
            ))),
    ensures
        frame_wf(frames, frames.len() - 1, f),
{
    let k = frames.len() - 1;
    let node = frames[k].0;
    lemma_coherent_parent(node);
    lemma_coherent_encloses(node);
    assert forall|i: int|
        #![trigger union_lo(frames[k].0.children@, i)]
        #![trigger union_hi(frames[k].0.children@, i)]
        0 <= i < dims::<PointOf<T>>() implies {
        &&& lo(frames[k].0.envelope.bounds(), i) == min_int(
            union_lo(frames[k].0.children@, i),
            hole_lo(frames, k, i),
        )
        &&& hi(frames[k].0.envelope.bounds(), i) == max_int(
            union_hi(frames[k].0.children@, i),
            hole_hi(frames, k, i),
        )
    } by {
        lemma_union_in_range(node.children@, i);
        assert(lo(node.envelope.bounds(), i) == union_lo(node.children@, i));
        assert(hi(node.envelope.bounds(), i) == union_hi(node.children@, i));
    }
}

/// The walk of a draining iterator through the nodes that it took out of a
/// tree, depth first.
pub struct DrainWalk<T: RTreeObject, R: SelectionFunction<T>> {
    node_stack: Vec<Frame<T>>,
    removal_function: R,
    original_size: usize,
}

impl<T: RTreeObject, R: SelectionFunction<T>> DrainWalk<T, R> {
    /// The steps of the walk, from the root to the node that it looks
    /// through.
    pub closed spec fn frames(&self) -> Seq<Frame<T>> {
        self.node_stack@
    }

    /// The selection function.
    pub closed spec fn function_spec(&self) -> R {
        self.removal_function
    }

    /// The number of objects of the tree when the iterator was made.
    pub closed spec fn original_size_spec(&self) -> usize {
        self.original_size
    }

    /// The number of objects that the iterator has yielded.
    pub open spec fn total_removed_spec(&self) -> nat {
        frames_removed(self.frames())
    }

    /// The objects that the iterator holds: those of the tree that it has not
    /// yielded.
    pub open spec fn held(&self) -> Multiset<T> {
        frames_bag(self.frames())
    }

    /// The leaves that the iterator holds are all at the same depth, and no
    /// parent but the root is without children.
    pub open spec fn is_balanced(&self) -> bool {
        exists|depth: nat| walk_balanced(self.frames(), depth)
    }

    /// No parent that the iterator holds, but the root, is without children.
    pub open spec fn is_populated(&self) -> bool {
        walk_populated(self.frames())
    }

    /// The objects that the iterator has yet to yield.
    pub open spec fn pending(&self) -> Multiset<T> {
        frames_pending(self.frames(), self.function_spec())
    }

    /// What holds of every iterator: its walk is as a walk should be, and it
    /// has yielded what it does not hold.
    pub open spec fn wf(&self) -> bool {
        &&& self.function_spec().wf()
        &&& self.frames().len() >= 1
        &&& walk_wf(self.frames(), self.function_spec())
        &&& self.held().len() + self.total_removed_spec() == self.original_size_spec()
    }

    /// An iterator over the objects of `rtree` that `removal_function`
    /// selects. The tree is left empty.
    pub(crate) fn new(rtree: &mut RTree<T>, removal_function: R) -> (r: Self)
        requires
            old(rtree).wf(),
            removal_function.wf(),
        ensures
            r.wf(),
            r.held() == old(rtree)@,
            r.function_spec() == removal_function,
            r.original_size_spec() == old(rtree)@.len(),
            r.total_removed_spec() == 0,
            final(rtree).wf(),
            final(rtree)@ == Multiset::<T>::empty(),
            final(rtree).params_spec() == old(rtree).params_spec(),
            old(rtree).is_balanced() ==> r.is_balanced(),
            old(rtree).is_populated() ==> r.is_populated(),
            r.pending() == selected(old(rtree).root_spec().as_node(), removal_function).to_multiset(),
    {
        let (root, original_size) = rtree.take_root();
        let mut node_stack: Vec<Frame<T>> = Vec::new();
        node_stack.push((root, 0, 0));
        proof {
            let frames = node_stack@;
            if old(rtree).is_balanced() {
                assert(root.regular_root(root.height(), 1, usize::MAX as int));
                assert(walk_balanced(frames, root.height()));
            }
            assert(frames.drop_last() =~= Seq::<Frame<T>>::empty());
            assert(frames_bag(frames.drop_last()) == Multiset::<T>::empty());
            lemma_add_empty(bag_of(root.children@));
            assert(frames_bag(frames) =~= root.bag());
            assert(frames_removed(frames.drop_last()) == 0);
            lemma_fresh_frame(frames, removal_function);
            broadcast use vstd::multiset::group_multiset_axioms;

            assert(frames_pending(frames.drop_last(), removal_function) == Multiset::<T>::empty());
            assert(root.children@.skip(0) =~= root.children@);
            assert(Seq::<T>::empty().to_multiset() =~= Multiset::<T>::empty()) by {
                Seq::<T>::empty().to_multiset_ensures();
            }
            assert(frames_pending(frames, removal_function) =~= selected(
                root.as_node(),
                removal_function,
            ).to_multiset());
        }
        DrainWalk { node_stack, removal_function, original_size }
    }
}

/// No frame has taken more objects than all frames together.
pub proof fn lemma_removed_bound<T: RTreeObject>(frames: Seq<Frame<T>>)
    requires
        frames.len() >= 2,
    ensures
        frames[frames.len() - 1].2 + frames[frames.len() - 2].2 <= frames_removed(frames),
{
    let rest = frames.drop_last();
    assert(rest.last() == frames[frames.len() - 2]);
    assert(frames_removed(rest) == frames_removed(rest.drop_last()) + rest.last().2);
}

impl<T: RTreeObject, R: SelectionFunction<T>> DrainWalk<T, R> {
    /// Ends the look through the node of the last frame. Its envelope is
    /// computed anew where objects were taken from below it. The root is
    /// returned, with the number of objects taken. Another node goes back
    /// to its parent unless it is left without children: to the place that
    /// the walk is at there, which it then passes, where `increment_idx`
    /// holds, and to the end otherwise.
    fn pop_node(&mut self, increment_idx: bool) -> (r: Option<(ParentNode<T>, usize)>)
        requires
            old(self).function_spec().wf(),
            old(self).frames().len() >= 1,
            walk_wf(old(self).frames(), old(self).function_spec()),
            old(self).total_removed_spec() <= usize::MAX,
            increment_idx && is_exact(old(self).function_spec()) ==> forall|j: int|
                0 <= j < old(self).frames().last().0.children@.len() ==> none_accepted(
                    #[trigger] old(self).frames().last().0.children@[j],
                    old(self).function_spec(),
                ),
            increment_idx ==> frame_pending(old(self).frames().last(), old(self).function_spec())
                == Multiset::<T>::empty(),
        ensures
            increment_idx && r is None ==> frames_pending(
                final(self).frames(),
                final(self).function_spec(),
            ) == frames_pending(old(self).frames(), old(self).function_spec()),
            increment_idx && r is Some ==> frames_pending(old(self).frames(), old(self).function_spec())
                == Multiset::<T>::empty(),
            final(self).function_spec() == old(self).function_spec(),
            final(self).original_size_spec() == old(self).original_size_spec(),
            r is Some <==> old(self).frames().len() == 1,
            r is Some ==> ({
                let root = r->0;
                &&& final(self).frames().len() == 0
                &&& root.0.coherent()
                &&& root.0.children@ == old(self).frames()[0].0.children@
                &&& root.0.bag() == old(self).held()
                &&& root.1 == old(self).total_removed_spec()
            }),
            r is None ==> {
                &&& final(self).frames().len() == old(self).frames().len() - 1
                &&& walk_wf(final(self).frames(), final(self).function_spec())
                &&& final(self).held() == old(self).held()
                &&& final(self).total_removed_spec() == old(self).total_removed_spec()
                &&& increment_idx ==> frames_weight(final(self).frames()) < frames_weight(
                    old(self).frames(),
                )
            },
            forall|depth: nat|
                #![trigger walk_balanced(old(self).frames(), depth)]
                walk_balanced(old(self).frames(), depth) ==> {
                    &&& r is None ==> walk_balanced(final(self).frames(), depth)
                    &&& r is Some ==> (r->0).0.regular_root(depth, 1, usize::MAX as int)
                },
            walk_populated(old(self).frames()) ==> {
                &&& r is None ==> walk_populated(final(self).frames())
                &&& r is Some ==> all_populated((r->0).0.children@)
            },
    {
        let ghost before = self.node_stack@;
        let ghost f = self.removal_function;
        let ghost top = before.len() - 1;
        let (mut node, _idx, num_removed) = self.node_stack.pop().unwrap();
        let ghost popped = node;
        proof {
            assert(frame_wf(before, top, f));
            assert(before.last() == before[top]);
        }
        if num_removed > 0 {
            node.envelope = envelope_for_children(node.children.as_slice());
        }
        proof {
            assert forall|i: int|
                #![trigger lo(node.envelope.bounds(), i)]
                #![trigger hi(node.envelope.bounds(), i)]
                0 <= i < dims::<PointOf<T>>() implies lo(node.envelope.bounds(), i) == union_lo(
                node.children@,
                i,
            ) && hi(node.envelope.bounds(), i) == union_hi(node.children@, i) by {
                if num_removed == 0 {
                    assert(frame_untouched(before, top));
                    lemma_union_in_range(node.children@, i);
                    assert(hole_lo(before, top, i) == ScalarOf::<T>::upper_limit());
                    assert(hole_hi(before, top, i) == ScalarOf::<T>::lower_limit());
                    assert(lo(node.envelope.bounds(), i) == min_int(
                        union_lo(before[top].0.children@, i),
                        hole_lo(before, top, i),
                    ));
                    assert(hi(node.envelope.bounds(), i) == max_int(
                        union_hi(before[top].0.children@, i),
                        hole_hi(before, top, i),
                    ));
                }
            }
            lemma_parent_coherent(node);
        }
        if self.node_stack.len() == 0 {
            let len = node.children.len();
            proof {
                broadcast use vstd::multiset::group_multiset_axioms;

                assert(before.drop_last() =~= Seq::<Frame<T>>::empty());
                assert(frames_bag(before.drop_last()) == Multiset::<T>::empty());
                assert(before.last().0.children@ == node.children@);
                assert(frames_bag(before) =~= bag_of(node.children@));
                assert(frames_removed(before.drop_last()) == 0);
                assert forall|depth: nat| walk_balanced(before, depth) implies node.regular_root(
                    depth,
                    1,
                    usize::MAX as int,
                ) by {
                    assert(before[0].0.children@ == node.children@);
                    assert(len <= usize::MAX);
                }
                if walk_populated(before) {
                    assert(before[0].0.children@ == node.children@);
                }
                assert(frames_pending(before.drop_last(), f) == Multiset::<T>::empty());
                assert(frames_pending(before, f) =~= frame_pending(before.last(), f));
            }
            return Some((node, num_removed));
        }
        let ghost below = self.node_stack@;
        let (mut parent, mut parent_idx, mut parent_removed) = self.node_stack.pop().unwrap();
        let ghost rest = self.node_stack@;
        let ghost old_parent = parent;
        let ghost old_idx = parent_idx;
        proof {
            assert(below == before.drop_last());
            assert(rest == below.drop_last());
            assert(below.last() == before[top - 1]);
            assert(frame_wf(before, top - 1, f));
            lemma_removed_bound(before);
            assert(frame_encloses(before, top - 1));
            assert(envelope_contains(parent.envelope.bounds(), popped.envelope.bounds()));
        }
        parent_removed = parent_removed + num_removed;
        let attached = node.children.len() > 0;
        if attached {
            if increment_idx {
                if parent_idx < parent.children.len() {
                    let mut slot = RTreeNode::Parent(node);
                    core::mem::swap(&mut parent.children[parent_idx], &mut slot);
                    parent.children.push(slot);
                } else {
                    parent.children.push(RTreeNode::Parent(node));
                }
                let len = parent.children.len();
                assert(parent_idx < len);
                parent_idx = parent_idx + 1;
            } else {
                parent.children.push(RTreeNode::Parent(node));
            }
        }
        self.node_stack.push((parent, parent_idx, parent_removed));
        proof {
            let after = self.node_stack@;
            let n = top - 1;
            let s = old_parent.children@;
            let v = RTreeNode::Parent(node);
            assert(after.len() == before.len() - 1);
            assert(after.drop_last() =~= rest);
            assert(after.last() == (parent, parent_idx, parent_removed));
            assert(forall|k: int| 0 <= k < n ==> after[k] == before[k]);
            lemma_frames_below(before, after, n, f);
            // The children of the parent.
            if attached {
                if increment_idx && old_idx < s.len() {
                    assert(parent.children@ =~= s.update(old_idx as int, v).push(s[old_idx as int]));
                    lemma_bag_update(s, old_idx as int, v);
                    lemma_bag_push(s.update(old_idx as int, v), s[old_idx as int]);
                    lemma_count_attach(s, old_idx as int, v);
                } else {
                    assert(parent.children@ =~= s.push(v));
                    lemma_bag_push(s, v);
                    if increment_idx {
                        assert(parent.children@.skip(parent_idx as int) =~= Seq::<RTreeNode<T>>::empty());
                        assert(s.skip(old_idx as int) =~= Seq::<RTreeNode<T>>::empty());
                    }
                }
            } else {
                assert(parent.children@ == s);
                assert(node.children@ =~= Seq::<RTreeNode<T>>::empty());
                lemma_bag_empty::<T>();
            }
            assert(bag_of(parent.children@) =~= bag_of(s).add(bag_of(node.children@))) by {
                broadcast use vstd::multiset::group_multiset_axioms;

                if attached {
                    assert(v.bag() == bag_of(node.children@));
                    if increment_idx && old_idx < s.len() {
                        assert(bag_of(s.update(old_idx as int, v)).add(s[old_idx as int].bag())
                            == bag_of(s).add(v.bag()));
                    }
                } else {
                    lemma_add_empty(bag_of(s));
                }
            }
            // The objects and the counts.
            assert(frames_bag(before) == frames_bag(below).add(bag_of(popped.children@)));
            assert(frames_bag(below) == frames_bag(rest).add(bag_of(s)));
            assert(frames_bag(after) == frames_bag(rest).add(bag_of(parent.children@)));
            assert(frames_bag(after) =~= frames_bag(before)) by {
                broadcast use vstd::multiset::group_multiset_axioms;

            }
            assert(frames_removed(before) == frames_removed(below) + num_removed);
            assert(frames_removed(below) == frames_removed(rest) + before[n].2);
            assert(frames_removed(after) == frames_removed(rest) + parent_removed);
            if increment_idx {
                assert(frames_weight(before) == frames_weight(below) + 1 + 2 * node_count_of(
                    before[top].0.children@.skip(before[top].1 as int),
                ));
                assert(frames_weight(below) == frames_weight(rest) + 1 + 2 * node_count_of(
                    s.skip(old_idx as int),
                ));
                assert(frames_weight(after) == frames_weight(rest) + 1 + 2 * node_count_of(
                    parent.children@.skip(parent_idx as int),
                ));
                assert(node_count_of(parent.children@.skip(parent_idx as int)) == node_count_of(
                    s.skip(old_idx as int),
                ));
                // What is yet to be yielded.
                assert(frame_entered(before[n], f));
                if attached {
                    if old_idx < s.len() {
                        lemma_selected_attach(s, old_idx as int, v, f);
                    }
                }
                assert(selected_of(parent.children@.skip(parent_idx as int), f).to_multiset()
                    == selected_of(s.skip(old_idx as int), f).to_multiset());
                assert(frame_pending(after.last(), f) == frame_pending(before[n], f));
                assert(frames_pending(before, f) == frames_pending(below, f).add(
                    frame_pending(before.last(), f),
                ));
                assert(frames_pending(below, f) == frames_pending(rest, f).add(
                    frame_pending(below.last(), f),
                ));
                assert(frames_pending(after, f) == frames_pending(rest, f).add(
                    frame_pending(after.last(), f),
                ));
                assert(frames_pending(after, f) =~= frames_pending(before, f)) by {
                    broadcast use vstd::multiset::group_multiset_axioms;

                }
            }
            // The frame of the parent.
            assert(all_coherent(parent.children@)) by {
                assert forall|j: int| 0 <= j < parent.children@.len() implies (
                #[trigger] parent.children@[j]).coherent() by {
                    if attached && increment_idx && old_idx < s.len() {
                        if j == old_idx {
                        } else if j == s.len() {
                            assert(parent.children@[j] == s[old_idx as int]);
                        } else {
                            assert(parent.children@[j] == s[j]);
                        }
                    } else if attached {
                        if j < s.len() {
                            assert(parent.children@[j] == s[j]);
                        }
                    }
                }
            }
            assert(envelope_contains(parent.envelope.bounds(), node.envelope.bounds())) by {
                assert forall|i: int|
                    #![trigger lo(parent.envelope.bounds(), i)]
                    #![trigger hi(parent.envelope.bounds(), i)]
                    #![trigger lo(node.envelope.bounds(), i)]
                    #![trigger hi(node.envelope.bounds(), i)]
                    0 <= i < dims::<PointOf<T>>() implies lo(parent.envelope.bounds(), i) <= lo(
                    node.envelope.bounds(),
                    i,
                ) && hi(node.envelope.bounds(), i) <= hi(parent.envelope.bounds(), i) by {
                    assert(frame_encloses(before, top));
                    lemma_union_within::<T>(popped.envelope.bounds(), node.children@, i);
                    assert(lo(popped.envelope.bounds(), i) <= union_lo(node.children@, i));
                    assert(lo(parent.envelope.bounds(), i) <= lo(popped.envelope.bounds(), i));
                    assert(hi(popped.envelope.bounds(), i) <= hi(parent.envelope.bounds(), i));
                }
            }
            assert(frame_encloses(after, n)) by {
                assert forall|j: int| 0 <= j < after[n].0.children@.len() implies envelope_contains(
                    after[n].0.envelope.bounds(),
                    (#[trigger] after[n].0.children@[j]).bounds(),
                ) by {
                    if attached && increment_idx && old_idx < s.len() {
                        if j == old_idx {
                            assert(parent.children@[j] == v);
                        } else if j == s.len() {
                            assert(parent.children@[j] == s[old_idx as int]);
                        } else {
                            assert(parent.children@[j] == s[j]);
                        }
                    } else if attached {
                        if j < s.len() {
                            assert(parent.children@[j] == s[j]);
                        } else {
                            assert(parent.children@[j] == v);
                        }
                    }
                }
            }
            if parent_removed == 0 {
                assert(frame_untouched(before, n));
                assert(node.envelope == popped.envelope);
                assert forall|i: int|
                    #![trigger union_lo(after[n].0.children@, i)]
                    #![trigger union_hi(after[n].0.children@, i)]
                    0 <= i < dims::<PointOf<T>>() implies {
                    &&& lo(after[n].0.envelope.bounds(), i) == min_int(
                        union_lo(after[n].0.children@, i),
                        hole_lo(after, n, i),
                    )
                    &&& hi(after[n].0.envelope.bounds(), i) == max_int(
                        union_hi(after[n].0.children@, i),
                        hole_hi(after, n, i),
                    )
                } by {
                    assert(lo(old_parent.envelope.bounds(), i) == min_int(
                        union_lo(before[n].0.children@, i),
                        hole_lo(before, n, i),
                    ));
                    assert(hi(old_parent.envelope.bounds(), i) == max_int(
                        union_hi(before[n].0.children@, i),
                        hole_hi(before, n, i),
                    ));
                    assert(hole_lo(before, n, i) == lo(popped.envelope.bounds(), i));
                    assert(hole_hi(before, n, i) == hi(popped.envelope.bounds(), i));
                    lemma_union_in_range(parent.children@, i);
                    lemma_union_in_range(s, i);
                    if attached {
                        if increment_idx && old_idx < s.len() {
                            lemma_union_attach(s, old_idx as int, v, i);
                        } else {
                            assert(parent.children@.drop_last() =~= s);
                        }
                    } else {
                        assert(union_lo(node.children@, i) == ScalarOf::<T>::upper_limit());
                        assert(union_hi(node.children@, i) == ScalarOf::<T>::lower_limit());
                    }
                }
            }
            if is_exact(f) {
                assert forall|j: int| 0 <= j < after[n].1 implies none_accepted(
                    #[trigger] after[n].0.children@[j],
                    f,
                ) by {
                    if attached && increment_idx {
                        if j == old_idx {
                            assert(parent.children@[j] == v);
                            assert forall|t: T| v.bag().count(t) > 0 implies !#[trigger] f.unpacks_leaf(
                                t,
                            ) by {
                                lemma_none_accepted_run(node.children@, f, t);
                            }
                        } else {
                            assert(parent.children@[j] == s[j]);
                            assert(none_accepted(before[n].0.children@[j], f));
                        }
                    } else {
                        assert(parent.children@[j] == s[j]);
                        assert(none_accepted(before[n].0.children@[j], f));
                    }
                }
            }
            assert(frame_wf(after, n, f));
            if walk_populated(before) {
                assert(all_populated(before[n].0.children@));
                assert(all_populated(before[top].0.children@));
                assert forall|k: int| #![trigger after[k]] 0 <= k < after.len() implies all_populated(
                    after[k].0.children@,
                ) by {
                    if k < n {
                        assert(after[k] == before[k]);
                    } else {
                        assert forall|j: int| 0 <= j < parent.children@.len() implies populated(
                            #[trigger] parent.children@[j],
                        ) by {
                            if attached {
                                assert(populated(v));
                                if increment_idx && old_idx < s.len() {
                                    if j == old_idx {
                                    } else if j == s.len() {
                                        assert(parent.children@[j] == s[old_idx as int]);
                                    } else {
                                        assert(parent.children@[j] == s[j]);
                                    }
                                } else if j < s.len() {
                                    assert(parent.children@[j] == s[j]);
                                }
                            }
                        }
                    }
                }
            }
            assert forall|depth: nat| walk_balanced(before, depth) implies walk_balanced(
                after,
                depth,
            ) by {
                assert forall|k: int|
                    #![trigger after[k]]
                    0 <= k < after.len() implies all_regular(
                    after[k].0.children@,
                    (depth - 1 - k) as nat,
                    1,
                    usize::MAX as int,
                ) by {
                    let below_depth = (depth - 1 - k) as nat;
                    if k < n {
                        assert(after[k] == before[k]);
                    } else {
                        assert(all_regular(before[n].0.children@, below_depth, 1, usize::MAX as int));
                        assert(all_regular(
                            before[top].0.children@,
                            (depth - 1 - top) as nat,
                            1,
                            usize::MAX as int,
                        ));
                        assert forall|j: int| 0 <= j < parent.children@.len() implies (
                        #[trigger] parent.children@[j]).regular(below_depth, 1, usize::MAX as int) by {
                            if attached {
                                assert(v.regular(below_depth, 1, usize::MAX as int));
                                if increment_idx && old_idx < s.len() {
                                    if j == old_idx {
                                    } else if j == s.len() {
                                        assert(parent.children@[j] == s[old_idx as int]);
                                    } else {
                                        assert(parent.children@[j] == s[j]);
                                    }
                                } else if j < s.len() {
                                    assert(parent.children@[j] == s[j]);
                                }
                            }
                        }
                    }
                }
            }
        }
        None
    }
}

impl<T: RTreeObject, R: SelectionFunction<T>> DrainWalk<T, R> {
    /// The next object that the selection function selects, taken out of the
    /// tree.
    ///
    /// The walk goes on from where it is. It looks into a node whose envelope
    /// the selection function accepts, passes the objects that the function
    /// does not accept, and yields the first that it accepts. Where the
    /// function prunes no parent above an object that it selects, `None`
    /// says that no such object is left.
    pub fn next(&mut self) -> (r: Option<T>)
        requires
            old(self).wf(),
        ensures
            final(self).wf(),
            final(self).function_spec() == old(self).function_spec(),
            final(self).original_size_spec() == old(self).original_size_spec(),
            r is None ==> final(self).held() == old(self).held() && final(self).total_removed_spec()
                == old(self).total_removed_spec(),
            r is Some ==> {
                &&& old(self).function_spec().unpacks_leaf(r->0)
                &&& old(self).held().count(r->0) > 0
                &&& final(self).held() == old(self).held().remove(r->0)
                &&& final(self).total_removed_spec() == old(self).total_removed_spec() + 1
            },
            is_exact(old(self).function_spec()) ==> (r is None <==> forall|t: T|
                old(self).held().count(t) > 0 ==> !#[trigger] old(self).function_spec().unpacks_leaf(t)),
            old(self).is_balanced() ==> final(self).is_balanced(),
            old(self).is_populated() ==> final(self).is_populated(),
            r is None <==> old(self).pending().len() == 0,
            r is None ==> final(self).pending() == old(self).pending(),
            r is Some ==> old(self).pending().count(r->0) > 0 && final(self).pending() == old(
                self,
            ).pending().remove(r->0),
    {
        let ghost f = self.removal_function;
        let ghost depth = choose|depth: nat| walk_balanced(old(self).frames(), depth);
        loop
            invariant
                self.wf(),
                self.pending() == old(self).pending(),
                old(self).is_balanced() ==> walk_balanced(self.frames(), depth),
                old(self).is_populated() ==> walk_populated(self.frames()),
                self.function_spec() == f,
                f == old(self).function_spec(),
                self.original_size_spec() == old(self).original_size_spec(),
                self.held() == old(self).held(),
                self.total_removed_spec() == old(self).total_removed_spec(),
            decreases frames_weight(self.frames()),
        {
            let ghost before = self.node_stack@;
            let ghost top = before.len() - 1;
            let (mut node, mut idx, removed) = self.node_stack.pop().unwrap();
            let ghost rest = self.node_stack@;
            let ghost s = node.children@;
            let ghost start = idx;
            proof {
                assert(before.last() == before[top]);
                assert(frame_wf(before, top, f));
                assert(rest == before.drop_last());
            }
            let unpack = idx > 0 || self.removal_function.should_unpack_parent(&node.envelope);
            let step = if unpack {
                scan_children(&mut node, &mut idx, &self.removal_function)
            } else {
                Scan::Exhausted
            };
            proof {
                lemma_count_skip_monotone(s, start as int, idx as int);
                if !(step is Exhausted) {
                    lemma_bag_swap_remove(s, idx as int);
                    lemma_count_swap_remove(s, idx as int);
                    lemma_selected_swap_remove(s, idx as int, f);
                }
                // What the walk has passed holds nothing that it yields.
                assert forall|j: int| start <= j < idx implies selected(#[trigger] s[j], f).len() == 0 by {
                    assert(s[j] is Leaf);
                }
                lemma_selected_passed(s, start as int, idx as int, f);
                assert(frames_pending(before, f) == frames_pending(rest, f).add(
                    frame_pending(before.last(), f),
                ));
                assert(frame_pending(before.last(), f) == if unpack {
                    selected_of(s.skip(idx as int), f).to_multiset()
                } else {
                    Multiset::<T>::empty()
                });
                // The children that the walk has passed.
                if is_exact(f) {
                    assert forall|j: int| 0 <= j < idx implies none_accepted(
                        #[trigger] node.children@[j],
                        f,
                    ) by {
                        assert(node.children@[j] == s[j]);
                        if j < start {
                            assert(none_accepted(before[top].0.children@[j], f));
                        } else {
                            assert(s[j] is Leaf);
                            lemma_leaf_bag(s[j]->Leaf_0);
                        }
                    }
                }
                assert forall|j: int| 0 <= j < node.children@.len() implies envelope_contains(
                    node.envelope.bounds(),
                    (#[trigger] node.children@[j]).bounds(),
                ) by {
                    assert(frame_encloses(before, top));
                    if step is Exhausted {
                    } else if j == idx {
                        assert(node.children@[j] == s[s.len() - 1]);
                    } else {
                        assert(node.children@[j] == s[j]);
                    }
                }
            }
            match step {
                Scan::Found(t) => {
                    proof {
                        broadcast use vstd::multiset::group_multiset_axioms;

                        lemma_leaf_bag(t);
                        assert(frames_bag(before).count(t) > 0);
                        vstd::multiset::axiom_count_le_len(frames_bag(before), t);
                    }
                    self.node_stack.push((node, idx, removed + 1));
                    proof {
                        broadcast use vstd::multiset::group_multiset_axioms;

                        let after = self.node_stack@;
                        assert(after.drop_last() =~= rest);
                        assert(forall|k: int| 0 <= k < top ==> after[k] == before[k]);
                        lemma_frames_below(before, after, top, f);
                        assert(frame_encloses(after, top));
                        assert(frame_wf(after, top, f));
                        assert(frames_bag(after) =~= frames_bag(before).remove(t));
                        assert(frames_bag(after).len() == frames_bag(before).len() - 1);
                        assert(selected(s[idx as int], f) =~= seq![t]);
                        assert(seq![t].to_multiset() =~= Multiset::<T>::empty().insert(t)) by {
                            seq![t].to_multiset_ensures();
                            Seq::<T>::empty().to_multiset_ensures();
                            assert(seq![t] =~= Seq::<T>::empty().push(t));
                        }
                        assert(frame_entered(after.last(), f));
                        assert(frames_pending(after, f) == frames_pending(rest, f).add(
                            frame_pending(after.last(), f),
                        ));
                        assert(frames_pending(before, f).count(t) > 0);
                        assert(frames_pending(after, f) =~= frames_pending(before, f).remove(t));
                        if old(self).is_balanced() {
                            assert forall|k: int|
                                #![trigger after[k]]
                                0 <= k < after.len() implies all_regular(
                                after[k].0.children@,
                                (depth - 1 - k) as nat,
                                1,
                                usize::MAX as int,
                            ) by {
                                if k < top {
                                    assert(after[k] == before[k]);
                                } else {
                                    assert(before[top].0.children@ == s);
                                    lemma_regular_swap_remove(
                                        s,
                                        idx as int,
                                        (depth - 1 - top) as nat,
                                        1,
                                        usize::MAX as int,
                                    );
                                }
                            }
                            assert(walk_balanced(after, depth));
                        }
                        if old(self).is_populated() {
                            assert(all_populated(before[top].0.children@));
                            assert forall|k: int| #![trigger after[k]] 0 <= k < after.len() implies all_populated(
                                after[k].0.children@,
                            ) by {
                                if k < top {
                                    assert(after[k] == before[k]);
                                } else {
                                    assert forall|j: int| 0 <= j < node.children@.len() implies populated(
                                        #[trigger] node.children@[j],
                                    ) by {
                                        if j == idx {
                                            assert(node.children@[j] == s[s.len() - 1]);
                                        } else {
                                            assert(node.children@[j] == s[j]);
                                        }
                                    }
                                }
                            }
                        }
                    }
                    return Some(t);
                },
                Scan::Descend(child) => {
                    self.node_stack.push((node, idx, removed));
                    let ghost middle = self.node_stack@;
                    self.node_stack.push((child, 0, 0));
                    proof {
                        broadcast use vstd::multiset::group_multiset_axioms;

                        let after = self.node_stack@;
                        let taken = RTreeNode::Parent(child);
                        assert(s[idx as int] == taken);
                        assert(taken.coherent());
                        assert(middle.drop_last() =~= rest);
                        assert(after.drop_last() =~= middle);
                        assert(forall|k: int| 0 <= k < top ==> after[k] == before[k]);
                        lemma_frames_below(before, after, top, f);
                        lemma_fresh_frame(after, f);
                        assert(frame_encloses(after, top)) by {
                            assert(envelope_contains(before[top].0.envelope.bounds(), s[idx as int].bounds()));
                        }
                        if removed == 0 {
                            assert(frame_untouched(before, top));
                            assert forall|i: int|
                                #![trigger union_lo(after[top].0.children@, i)]
                                #![trigger union_hi(after[top].0.children@, i)]
                                0 <= i < dims::<PointOf<T>>() implies {
                                &&& lo(after[top].0.envelope.bounds(), i) == min_int(
                                    union_lo(after[top].0.children@, i),
                                    hole_lo(after, top, i),
                                )
                                &&& hi(after[top].0.envelope.bounds(), i) == max_int(
                                    union_hi(after[top].0.children@, i),
                                    hole_hi(after, top, i),
                                )
                            } by {
                                lemma_union_swap_remove(s, idx as int, i);
                                lemma_union_in_range(s, i);
                                assert(lo(before[top].0.envelope.bounds(), i) == min_int(
                                    union_lo(before[top].0.children@, i),
                                    hole_lo(before, top, i),
                                ));
                                assert(hi(before[top].0.envelope.bounds(), i) == max_int(
                                    union_hi(before[top].0.children@, i),
                                    hole_hi(before, top, i),
                                ));
                                assert(hole_lo(after, top, i) == lo(taken.bounds(), i));
                                assert(hole_hi(after, top, i) == hi(taken.bounds(), i));
                            }
                        }
                        assert(frame_wf(after, top, f));
                        assert(frames_bag(middle) == frames_bag(rest).add(bag_of(node.children@)));
                        assert(frames_bag(after) == frames_bag(middle).add(bag_of(child.children@)));
                        assert(taken.bag() == bag_of(child.children@));
                        assert(frames_bag(after) =~= frames_bag(before));
                        assert(frames_removed(middle) == frames_removed(rest) + removed);
                        assert(child.children@.skip(0) =~= child.children@);
                        assert(node_count(taken) == 1 + node_count_of(child.children@));
                        assert(frames_weight(middle) == frames_weight(rest) + 1 + 2 * node_count_of(
                            node.children@.skip(idx as int),
                        ));
                        assert(frames_weight(after) == frames_weight(middle) + 1 + 2 * node_count_of(
                            child.children@.skip(0),
                        ));
                        assert(frames_weight(after) < frames_weight(before));
                        assert(frame_entered(middle.last(), f));
                        assert(child.children@.skip(0) =~= child.children@);
                        assert(frame_pending(after.last(), f) =~= selected(taken, f).to_multiset()) by {
                            Seq::<T>::empty().to_multiset_ensures();
                        }
                        assert(frames_pending(middle, f) == frames_pending(rest, f).add(
                            frame_pending(middle.last(), f),
                        ));
                        assert(frames_pending(after, f) == frames_pending(middle, f).add(
                            frame_pending(after.last(), f),
                        ));
                        assert(frames_pending(after, f) =~= frames_pending(before, f)) by {
                            broadcast use vstd::multiset::group_multiset_axioms;

                        }
                        if old(self).is_balanced() {
                            assert(before[top].0.children@ == s);
                            let below_depth = (depth - 1 - top) as nat;
                            assert(s[idx as int].regular(below_depth, 1, usize::MAX as int));
                            lemma_regular_swap_remove(s, idx as int, below_depth, 1, usize::MAX as int);
                            assert forall|k: int|
                                #![trigger after[k]]
                                0 <= k < after.len() implies all_regular(
                                after[k].0.children@,
                                (depth - 1 - k) as nat,
                                1,
                                usize::MAX as int,
                            ) by {
                                if k < top {
                                    assert(after[k] == before[k]);
                                }
                            }
                            assert(walk_balanced(after, depth));
                        }
                        if old(self).is_populated() {
                            assert(all_populated(before[top].0.children@));
                            assert(before[top].0.children@ == s);
                            assert(populated(s[idx as int]));
                            assert forall|k: int| #![trigger after[k]] 0 <= k < after.len() implies all_populated(
                                after[k].0.children@,
                            ) by {
                                if k < top {
                                    assert(after[k] == before[k]);
                                } else if k == top {
                                    assert forall|j: int| 0 <= j < node.children@.len() implies populated(
                                        #[trigger] node.children@[j],
                                    ) by {
                                        if j == idx {
                                            assert(node.children@[j] == s[s.len() - 1]);
                                        } else {
                                            assert(node.children@[j] == s[j]);
                                        }
                                    }
                                }
                            }
                        }
                    }
                },
                Scan::Exhausted => {
                    self.node_stack.push((node, idx, removed));
                    let ghost middle = self.node_stack@;
                    proof {
                        assert(middle.drop_last() =~= rest);
                        assert(forall|k: int| 0 <= k < top ==> middle[k] == before[k]);
                        lemma_frames_below(before, middle, top, f);
                        assert(node.children@ == s);
                        if removed == 0 {
                            assert(frame_untouched(before, top));
                            assert(frame_untouched(middle, top));
                        }
                        assert(frame_wf(middle, top, f));
                        assert(frames_bag(middle) == frames_bag(before));
                        assert(frames_removed(middle) == frames_removed(before));
                        assert(frames_weight(middle) <= frames_weight(before));
                        assert(s.skip(s.len() as int) =~= Seq::<RTreeNode<T>>::empty());
                        assert(Seq::<T>::empty().to_multiset() =~= Multiset::<T>::empty()) by {
                            Seq::<T>::empty().to_multiset_ensures();
                        }
                        assert(frame_pending(middle.last(), f) =~= Multiset::<T>::empty());
                        assert(frame_pending(before.last(), f) =~= Multiset::<T>::empty());
                        assert(frames_pending(middle, f) == frames_pending(rest, f).add(
                            frame_pending(middle.last(), f),
                        ));
                        assert(frames_pending(middle, f) == frames_pending(before, f));
                        if old(self).is_balanced() {
                            assert forall|k: int|
                                #![trigger middle[k]]
                                0 <= k < middle.len() implies all_regular(
                                middle[k].0.children@,
                                (depth - 1 - k) as nat,
                                1,
                                usize::MAX as int,
                            ) by {
                                if k < top {
                                    assert(middle[k] == before[k]);
                                } else {
                                    assert(before[top].0.children@ == s);
                                }
                            }
                            assert(walk_balanced(middle, depth));
                        }
                        if old(self).is_populated() {
                            assert forall|k: int| #![trigger middle[k]] 0 <= k < middle.len() implies all_populated(
                                middle[k].0.children@,
                            ) by {
                                if k < top {
                                    assert(middle[k] == before[k]);
                                } else {
                                    assert(before[top].0.children@ == s);
                                }
                            }
                        }
                        if is_exact(f) {
                            assert forall|j: int| 0 <= j < s.len() implies none_accepted(
                                #[trigger] s[j],
                                f,
                            ) by {
                                if !unpack {
                                    lemma_pruned_none_accepted(node, f, j);
                                }
                            }
                        }
                    }
                    match self.pop_node(true) {
                        Some((root, total_removed)) => {
                            let len = root.children.len();
                            self.node_stack.push((root, len, total_removed));
                            proof {
                                broadcast use vstd::multiset::group_multiset_axioms;

                                let after = self.node_stack@;
                                assert(after.drop_last() =~= Seq::<Frame<T>>::empty());
                                assert(frames_bag(after.drop_last()) == Multiset::<T>::empty());
                                assert(frames_removed(after.drop_last()) == 0);
                                assert(frames_bag(after) =~= root.bag());
                                lemma_fresh_frame(after, f);
                                if old(self).is_balanced() {
                                    assert(root.regular_root(depth, 1, usize::MAX as int));
                                    assert(walk_balanced(after, depth));
                                }
                                if old(self).is_populated() {
                                    assert(after[0].0.children@ == root.children@);
                                }
                                assert(root.children@.skip(root.children@.len() as int) =~= Seq::<
                                    RTreeNode<T>,
                                >::empty());
                                assert(frames_pending(after.drop_last(), f) == Multiset::<T>::empty());
                                assert(frames_pending(after, f) =~= Multiset::<T>::empty());
                                assert(frames_pending(middle, f) == Multiset::<T>::empty());
                                if is_exact(f) {
                                    assert forall|t: T| old(self).held().count(t) > 0 implies !#[trigger] f.unpacks_leaf(
                                        t,
                                    ) by {
                                        lemma_none_accepted_run(root.children@, f, t);
                                    }
                                }
                            }
                            return None;
                        },
                        None => {},
                    }
                },
            }
        }
    }

    /// Ends the walk and gives back to `rtree`, which must be empty, the
    /// objects that have not been yielded. The nodes that the walk has looked
    /// into go back to their parents, and the envelopes of those that lost
    /// objects are computed anew.
    pub(crate) fn finish(self, rtree: &mut RTree<T>)
        requires
            self.wf(),
            old(rtree).wf(),
            old(rtree)@.len() == 0,
        ensures
            final(rtree).wf(),
            final(rtree)@ == self.held(),
            final(rtree)@.len() == self.original_size_spec() - self.total_removed_spec(),
            final(rtree).params_spec() == old(rtree).params_spec(),
            self.is_balanced() ==> final(rtree).is_balanced(),
            self.is_populated() ==> final(rtree).is_populated(),
    {
        let mut walk = self;
        let ghost depth = choose|depth: nat| walk_balanced(self.frames(), depth);
        loop
            invariant
                self.is_balanced() ==> walk_balanced(walk.frames(), depth),
                self.is_populated() ==> walk_populated(walk.frames()),
                walk.function_spec().wf(),
                walk.frames().len() >= 1,
                walk_wf(walk.frames(), walk.function_spec()),
                walk.held() == self.held(),
                walk.total_removed_spec() == self.total_removed_spec(),
                walk.original_size_spec() == self.original_size_spec(),
                self.held().len() + self.total_removed_spec() == self.original_size_spec(),
                *rtree == *old(rtree),
                old(rtree).wf(),
            decreases walk.frames().len(),
        {
            match walk.pop_node(false) {
                Some((root, total_removed)) => {
                    proof {
                        vstd::seq_lib::to_multiset_len(root.leaves());
                    }
                    rtree.restore_root(root, walk.original_size - total_removed);
                    proof {
                        if self.is_balanced() {
                            assert(root.regular_root(depth, 1, usize::MAX as int));
                            if root.children@.len() >= 1 {
                                crate::algorithm::rstar::lemma_regular_tree(
                                    root,
                                    depth,
                                    1,
                                    usize::MAX as int,
                                );
                            }
                        }
                    }
                    return;
                },
                None => {},
            }
        }
    }
}

impl<T: RTreeObject, R: SelectionFunction<T>> DrainWalk<T, R> {
    /// Yields all that is left to yield, and gives the rest back to `rtree`,
    /// which must be empty.
    ///
    /// Each object that the iterator held is among those yielded or in the
    /// tree. Where the selection function prunes no parent above an object
    /// that it selects, the objects yielded are those that it accepts, and
    /// the tree keeps the others.
    pub(crate) fn collect(self, rtree: &mut RTree<T>) -> (r: Vec<T>)
        requires
            self.wf(),
            old(rtree).wf(),
            old(rtree)@.len() == 0,
        ensures
            final(rtree).wf(),
            final(rtree).params_spec() == old(rtree).params_spec(),
            r@.to_multiset().add(final(rtree)@) == self.held(),
            forall|k: int| 0 <= k < r@.len() ==> self.function_spec().unpacks_leaf(#[trigger] r@[k]),
            is_exact(self.function_spec()) ==> forall|t: T|
                final(rtree)@.count(t) > 0 ==> !#[trigger] self.function_spec().unpacks_leaf(t),
            self.is_balanced() ==> final(rtree).is_balanced(),
            self.is_populated() ==> final(rtree).is_populated(),
            r@.to_multiset() == self.pending(),
    {
        let mut walk = self;
        let mut result: Vec<T> = Vec::new();
        proof {
            broadcast use vstd::multiset::group_multiset_axioms;

            assert(result@.to_multiset() =~= Multiset::<T>::empty()) by {
                result@.to_multiset_ensures();
            }
            assert(result@.to_multiset().add(walk.held()) =~= self.held());
            assert(result@.to_multiset().add(walk.pending()) =~= self.pending());
        }
        loop
            invariant
                walk.wf(),
                walk.function_spec() == self.function_spec(),
                result@.to_multiset().add(walk.pending()) == self.pending(),
                result@.to_multiset().add(walk.held()) == self.held(),
                forall|k: int|
                    0 <= k < result@.len() ==> self.function_spec().unpacks_leaf(#[trigger] result@[k]),
                self.is_balanced() ==> walk.is_balanced(),
                self.is_populated() ==> walk.is_populated(),
                *rtree == *old(rtree),
                old(rtree).wf(),
                old(rtree)@.len() == 0,
            decreases walk.held().len(),
        {
            let ghost before = walk.held();
            let ghost owed = walk.pending();
            let ghost collected = result@;
            match walk.next() {
                Some(t) => {
                    result.push(t);
                    proof {
                        broadcast use vstd::multiset::group_multiset_axioms;

                        collected.to_multiset_ensures();
                        assert(result@.to_multiset() == collected.to_multiset().insert(t));
                        assert(result@.to_multiset().add(walk.held()) =~= collected.to_multiset().add(
                            before,
                        ));
                        assert(walk.held().len() == before.len() - 1);
                        assert(result@.to_multiset().add(walk.pending()) =~= collected.to_multiset().add(
                            owed,
                        ));
                    }
                },
                None => {
                    proof {
                        broadcast use vstd::multiset::group_multiset_axioms;

                        vstd::multiset::lemma_multiset_empty_len(owed);
                        assert(result@.to_multiset() =~= self.pending());
                    }
                    walk.finish(rtree);
                    return result;
                },
            }
        }
    }
}

/// Takes the objects that a selection function selects out of a tree, one
/// by one.
///
/// The iterator borrows the tree that it was made for, and holds its nodes:
/// the tree is empty while the iterator lives. It walks through the nodes,
/// depth first. [`finish`](Self::finish) gives back to the tree what has not
/// been yielded. An iterator that is dropped without it takes the objects
/// that it holds with it, and leaves the tree empty.
pub struct DrainIterator<'a, T: RTreeObject, R: SelectionFunction<T>> {
    /// The tree, empty while the iterator lives.
    pub rtree: &'a mut RTree<T>,
    /// The walk through the nodes of the tree.
    pub walk: DrainWalk<T, R>,
}

impl<'a, T: RTreeObject, R: SelectionFunction<T>> DrainIterator<'a, T, R> {
    /// The selection function.
    pub open spec fn function_spec(&self) -> R {
        self.walk.function_spec()
    }

    /// The number of objects of the tree when the iterator was made.
    pub open spec fn original_size_spec(&self) -> usize {
        self.walk.original_size_spec()
    }

    /// The number of objects that the iterator has yielded.
    pub open spec fn total_removed_spec(&self) -> nat {
        self.walk.total_removed_spec()
    }

    /// The objects that the iterator holds: those of the tree that it has not
    /// yielded.
    pub open spec fn held(&self) -> Multiset<T> {
        self.walk.held()
    }

    /// The leaves that the iterator holds are all at the same depth, and no
    /// parent but the root is without children.
    pub open spec fn is_balanced(&self) -> bool {
        self.walk.is_balanced()
    }

    /// No parent that the iterator holds, but the root, is without children.
    pub open spec fn is_populated(&self) -> bool {
        self.walk.is_populated()
    }

    /// The objects that the iterator has yet to yield: those that a search
    /// with the selection function yields of what the walk has not passed.
    pub open spec fn pending(&self) -> Multiset<T> {
        self.walk.pending()
    }

    /// What holds of every iterator: its walk is as a walk should be, it has
    /// yielded what it does not hold, and the tree that it borrows is empty.
    pub open spec fn wf(&self) -> bool {
        &&& self.walk.wf()
        &&& self.rtree.wf()
        &&& self.rtree@.len() == 0
    }

    /// An iterator over the objects of `rtree` that `removal_function`
    /// selects. The tree is empty until the iterator is finished, and is
    /// then what the iterator leaves of it.
    pub fn new(rtree: &'a mut RTree<T>, removal_function: R) -> (r: Self)
        requires
            old(rtree).wf(),
            removal_function.wf(),
        ensures
            r.wf(),
            r.held() == old(rtree)@,
            r.function_spec() == removal_function,
            r.original_size_spec() == old(rtree)@.len(),
            r.total_removed_spec() == 0,
            r.rtree.params_spec() == old(rtree).params_spec(),
            old(rtree).is_balanced() ==> r.is_balanced(),
            old(rtree).is_populated() ==> r.is_populated(),
            r.pending() == selected(old(rtree).root_spec().as_node(), removal_function).to_multiset(),
            *final(r.rtree) == *final(rtree),
    {
        let walk = DrainWalk::new(rtree, removal_function);
        proof {
            vstd::multiset::lemma_multiset_empty_len(rtree@);
        }
        DrainIterator { rtree, walk }
    }

    /// The next object that the selection function selects, taken out of the
    /// tree.
    ///
    /// The walk goes on from where it is. It looks into a node whose envelope
    /// the selection function accepts, passes the objects that the function
    /// does not accept, and yields the first that it accepts. Where the
    /// function prunes no parent above an object that it selects, `None`
    /// says that no such object is left.
    pub fn next(&mut self) -> (r: Option<T>)
        requires
            old(self).wf(),
        ensures
            final(self).wf(),
            final(self).function_spec() == old(self).function_spec(),
            final(self).original_size_spec() == old(self).original_size_spec(),
            *final(self).rtree == *old(self).rtree,
            *final(final(self).rtree) == *final(old(self).rtree),
            r is None ==> final(self).held() == old(self).held() && final(self).total_removed_spec()
                == old(self).total_removed_spec(),
            r is Some ==> {
                &&& old(self).function_spec().unpacks_leaf(r->0)
                &&& old(self).held().count(r->0) > 0
                &&& final(self).held() == old(self).held().remove(r->0)
                &&& final(self).total_removed_spec() == old(self).total_removed_spec() + 1
            },
            is_exact(old(self).function_spec()) ==> (r is None <==> forall|t: T|
                old(self).held().count(t) > 0 ==> !#[trigger] old(self).function_spec().unpacks_leaf(t)),
            old(self).is_balanced() ==> final(self).is_balanced(),
            old(self).is_populated() ==> final(self).is_populated(),
            r is None <==> old(self).pending().len() == 0,
            r is None ==> final(self).pending() == old(self).pending(),
            r is Some ==> old(self).pending().count(r->0) > 0 && final(self).pending() == old(
                self,
            ).pending().remove(r->0),
    {
        self.walk.next()
    }

    /// Ends the walk and gives back to the tree the objects that have not
    /// been yielded. The nodes that the walk has looked into go back to their
    /// parents, and the envelopes of those that lost objects are computed
    /// anew.
    pub fn finish(self)
        requires
            self.wf(),
        ensures
            final(self.rtree).wf(),
            final(self.rtree)@ == self.held(),
            final(self.rtree)@.len() == self.original_size_spec() - self.total_removed_spec(),
            final(self.rtree).params_spec() == old(self.rtree).params_spec(),
            self.is_balanced() ==> final(self.rtree).is_balanced(),
            self.is_populated() ==> final(self.rtree).is_populated(),
    {
        let DrainIterator { rtree, walk } = self;
        walk.finish(rtree);
    }

    /// Yields all that is left to yield, and gives the rest back to the tree.
    ///
    /// Each object that the iterator held is among those yielded or in the
    /// tree. Where the selection function prunes no parent above an object
    /// that it selects, the objects yielded are those that it accepts, and
    /// the tree keeps the others.
    pub fn collect(self) -> (r: Vec<T>)
        requires
            self.wf(),
        ensures
            final(self.rtree).wf(),
            final(self.rtree).params_spec() == old(self.rtree).params_spec(),
            r@.to_multiset().add(final(self.rtree)@) == self.held(),
            forall|k: int| 0 <= k < r@.len() ==> self.function_spec().unpacks_leaf(#[trigger] r@[k]),
            is_exact(self.function_spec()) ==> forall|t: T|
                final(self.rtree)@.count(t) > 0 ==> !#[trigger] self.function_spec().unpacks_leaf(t),
            self.is_balanced() ==> final(self.rtree).is_balanced(),
            self.is_populated() ==> final(self.rtree).is_populated(),
            r@.to_multiset() == self.pending(),
    {
        let DrainIterator { rtree, walk } = self;
        walk.collect(rtree)
    }
}

} // verus!
