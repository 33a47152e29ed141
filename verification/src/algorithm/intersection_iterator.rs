//! The pairs of objects of two trees whose envelopes intersect.

use crate::aabb::{envelope_contains, envelopes_intersect};
use crate::algorithm::iterators::{lemma_leaves_within, lemma_union_around};
use crate::algorithm::rstar::{lemma_add_empty, lemma_bag_assoc};
use crate::algorithm::selection_functions::{lemma_intersection_grows, lemma_intersects_symmetric};
use crate::envelope::Envelope;
use crate::node::{
    all_coherent, leaves_of, lemma_coherent_parent, lemma_leaves_concat, lemma_node_count_concat,
    lemma_node_count_single,
    node_count, node_count_of, ParentNode, PointOf, RTreeNode,
};
use crate::object::RTreeObject;
use vstd::multiset::Multiset;
use vstd::prelude::*;

verus! {

/// Whether the envelopes of `t` and `u` intersect.
pub open spec fn objects_intersect<T: RTreeObject, U: RTreeObject<Envelope = T::Envelope>>(
    t: T,
    u: U,
) -> bool {
    envelopes_intersect(t.envelope_spec().bounds(), u.envelope_spec().bounds())
}

/// The pairs of `t` and an object of `others` whose envelopes intersect.
pub open spec fn pairs_with<T: RTreeObject, U: RTreeObject<Envelope = T::Envelope>>(
    t: T,
    others: Seq<U>,
) -> Multiset<(T, U)>
    decreases others.len(),
{
    if others.len() == 0 {
        Multiset::empty()
    } else if objects_intersect(t, others.last()) {
        pairs_with(t, others.drop_last()).insert((t, others.last()))
    } else {
        pairs_with(t, others.drop_last())
    }
}

/// The pairs of an object of `first` and an object of `second` whose
/// envelopes intersect.
pub open spec fn pairs_between<T: RTreeObject, U: RTreeObject<Envelope = T::Envelope>>(
    first: Seq<T>,
    second: Seq<U>,
) -> Multiset<(T, U)>
    decreases first.len(),
{
    if first.len() == 0 {
        Multiset::empty()
    } else {
        pairs_between(first.drop_last(), second).add(pairs_with(first.last(), second))
    }
}

/// The pairs of an object below `a` and an object below `b` whose envelopes
/// intersect.
pub open spec fn node_pairs<T: RTreeObject, U: RTreeObject<Envelope = T::Envelope>>(
    a: RTreeNode<T>,
    b: RTreeNode<U>,
) -> Multiset<(T, U)> {
    pairs_between(a.leaves(), b.leaves())
}

/// The pairs of an object with two runs of objects are its pairs with the
/// first and its pairs with the second.
pub proof fn lemma_pairs_with_concat<T: RTreeObject, U: RTreeObject<Envelope = T::Envelope>>(
    t: T,
    b1: Seq<U>,
    b2: Seq<U>,
)
    ensures
        pairs_with(t, b1 + b2) == pairs_with(t, b1).add(pairs_with(t, b2)),
    decreases b2.len(),
{
    broadcast use vstd::multiset::group_multiset_axioms;

    if b2.len() == 0 {
        assert(b1 + b2 =~= b1);
        assert(pairs_with(t, b1).add(pairs_with(t, b2)) =~= pairs_with(t, b1));
    } else {
        lemma_pairs_with_concat(t, b1, b2.drop_last());
        assert((b1 + b2).drop_last() =~= b1 + b2.drop_last());
        assert((b1 + b2).last() == b2.last());
        assert(pairs_with(t, b1 + b2) =~= pairs_with(t, b1).add(pairs_with(t, b2)));
    }
}

/// The pairs of two runs of objects with a third are the pairs of the first
/// and the pairs of the second with it.
pub proof fn lemma_pairs_first_concat<T: RTreeObject, U: RTreeObject<Envelope = T::Envelope>>(
    a1: Seq<T>,
    a2: Seq<T>,
    b: Seq<U>,
)
    ensures
        pairs_between(a1 + a2, b) == pairs_between(a1, b).add(pairs_between(a2, b)),
    decreases a2.len(),
{
    broadcast use vstd::multiset::group_multiset_axioms;

    if a2.len() == 0 {
        assert(a1 + a2 =~= a1);
        assert(pairs_between(a1, b).add(pairs_between(a2, b)) =~= pairs_between(a1, b));
    } else {
        lemma_pairs_first_concat(a1, a2.drop_last(), b);
        assert((a1 + a2).drop_last() =~= a1 + a2.drop_last());
        assert((a1 + a2).last() == a2.last());
        assert(pairs_between(a1 + a2, b) =~= pairs_between(a1, b).add(pairs_between(a2, b)));
    }
}

/// The pairs of a run of objects with two runs are its pairs with the first
/// and its pairs with the second.
pub proof fn lemma_pairs_second_concat<T: RTreeObject, U: RTreeObject<Envelope = T::Envelope>>(
    a: Seq<T>,
    b1: Seq<U>,
    b2: Seq<U>,
)
    ensures
        pairs_between(a, b1 + b2) == pairs_between(a, b1).add(pairs_between(a, b2)),
    decreases a.len(),
{
    broadcast use vstd::multiset::group_multiset_axioms;

    if a.len() == 0 {
        assert(pairs_between(a, b1 + b2) =~= pairs_between(a, b1).add(pairs_between(a, b2)));
    } else {
        lemma_pairs_second_concat(a.drop_last(), b1, b2);
        lemma_pairs_with_concat(a.last(), b1, b2);
        assert(pairs_between(a, b1 + b2) =~= pairs_between(a, b1).add(pairs_between(a, b2)));
    }
}

/// No object pairs with none.
pub proof fn lemma_pairs_second_empty<T: RTreeObject, U: RTreeObject<Envelope = T::Envelope>>(
    a: Seq<T>,
)
    ensures
        pairs_between(a, Seq::<U>::empty()) == Multiset::<(T, U)>::empty(),
    decreases a.len(),
{
    broadcast use vstd::multiset::group_multiset_axioms;

    if a.len() > 0 {
        lemma_pairs_second_empty::<T, U>(a.drop_last());
        assert(pairs_with(a.last(), Seq::<U>::empty()) =~= Multiset::<(T, U)>::empty());
        assert(pairs_between(a, Seq::<U>::empty()) =~= Multiset::<(T, U)>::empty());
    }
}

/// Where no object of a run intersects an object of another, there are no
/// pairs.
pub proof fn lemma_pairs_none<T: RTreeObject, U: RTreeObject<Envelope = T::Envelope>>(
    a: Seq<T>,
    b: Seq<U>,
)
    requires
        forall|i: int, j: int|
            0 <= i < a.len() && 0 <= j < b.len() ==> !objects_intersect(
                #[trigger] a[i],
                #[trigger] b[j],
            ),
    ensures
        pairs_between(a, b) == Multiset::<(T, U)>::empty(),
    decreases a.len(), b.len(),
{
    broadcast use vstd::multiset::group_multiset_axioms;

    if a.len() > 0 {
        assert forall|i: int, j: int|
            0 <= i < a.drop_last().len() && 0 <= j < b.len() implies !objects_intersect(
            #[trigger] a.drop_last()[i],
            #[trigger] b[j],
        ) by {
            assert(a.drop_last()[i] == a[i]);
        }
        lemma_pairs_none(a.drop_last(), b);
        lemma_pairs_with_none(a.last(), b, a, a.len() - 1);
        assert(pairs_between(a, b) =~= Multiset::<(T, U)>::empty());
    }
}

/// An object whose envelope meets none of the envelopes of some objects has
/// no pairs with them.
pub proof fn lemma_pairs_with_none<T: RTreeObject, U: RTreeObject<Envelope = T::Envelope>>(
    t: T,
    b: Seq<U>,
    a: Seq<T>,
    i: int,
)
    requires
        0 <= i < a.len(),
        a[i] == t,
        forall|j: int| 0 <= j < b.len() ==> !objects_intersect(a[i], #[trigger] b[j]),
    ensures
        pairs_with(t, b) == Multiset::<(T, U)>::empty(),
    decreases b.len(),
{
    if b.len() > 0 {
        assert(!objects_intersect(a[i], b[b.len() - 1]));
        assert forall|j: int| 0 <= j < b.drop_last().len() implies !objects_intersect(
            a[i],
            #[trigger] b.drop_last()[j],
        ) by {
            assert(b.drop_last()[j] == b[j]);
        }
        lemma_pairs_with_none(t, b.drop_last(), a, i);
    }
}

/// Two coherent nodes whose envelopes do not intersect have no pairs.
pub proof fn lemma_disjoint_nodes<T: RTreeObject, U: RTreeObject<Envelope = T::Envelope>>(
    a: RTreeNode<T>,
    b: RTreeNode<U>,
)
    requires
        a.coherent(),
        b.coherent(),
        !envelopes_intersect(a.bounds(), b.bounds()),
    ensures
        node_pairs(a, b) == Multiset::<(T, U)>::empty(),
{
    assert forall|i: int, j: int|
        0 <= i < a.leaves().len() && 0 <= j < b.leaves().len() implies !objects_intersect(
        #[trigger] a.leaves()[i],
        #[trigger] b.leaves()[j],
    ) by {
        let t = a.leaves()[i];
        let u = b.leaves()[j];
        lemma_leaves_within(a, i);
        lemma_leaves_within(b, j);
        if objects_intersect(t, u) {
            // t meets u, u lies in b: t meets b. b meets t, t lies in a: b meets a.
            lemma_intersection_grows(
                t.envelope_spec().bounds(),
                u.envelope_spec().bounds(),
                b.bounds(),
            );
            lemma_intersects_symmetric(t.envelope_spec().bounds(), b.bounds());
            lemma_intersection_grows(b.bounds(), t.envelope_spec().bounds(), a.bounds());
            lemma_intersects_symmetric(b.bounds(), a.bounds());
        }
    }
    lemma_pairs_none(a.leaves(), b.leaves());
}

/// The pairs of two leaves: the pair of their objects where they intersect.
pub proof fn lemma_leaf_pairs<T: RTreeObject, U: RTreeObject<Envelope = T::Envelope>>(t: T, u: U)
    ensures
        node_pairs(RTreeNode::Leaf(t), RTreeNode::Leaf(u)) == if objects_intersect(t, u) {
            Multiset::<(T, U)>::empty().insert((t, u))
        } else {
            Multiset::<(T, U)>::empty()
        },
{
    broadcast use vstd::multiset::group_multiset_axioms;

    let a = seq![t];
    let b = seq![u];
    assert(a.drop_last() =~= Seq::<T>::empty());
    assert(b.drop_last() =~= Seq::<U>::empty());
    assert(a.last() == t);
    assert(b.last() == u);
    assert(pairs_with(t, b.drop_last()) =~= Multiset::<(T, U)>::empty());
    assert(pairs_between(a.drop_last(), b) =~= Multiset::<(T, U)>::empty());
    assert(pairs_between(a, b) =~= pairs_with(t, b));
}

/// The pairs that wait on the stack.
pub open spec fn stack_pairs<T: RTreeObject, U: RTreeObject<Envelope = T::Envelope>>(
    stack: Seq<(&RTreeNode<T>, &RTreeNode<U>)>,
) -> Multiset<(T, U)>
    decreases stack.len(),
{
    if stack.len() == 0 {
        Multiset::empty()
    } else {
        stack_pairs(stack.drop_last()).add(node_pairs(*stack.last().0, *stack.last().1))
    }
}

/// The sum, over the pairs of nodes on the stack, of the products of their
/// numbers of nodes.
pub open spec fn stack_weight<T: RTreeObject, U: RTreeObject<Envelope = T::Envelope>>(
    stack: Seq<(&RTreeNode<T>, &RTreeNode<U>)>,
) -> nat
    decreases stack.len(),
{
    if stack.len() == 0 {
        0
    } else {
        stack_weight(stack.drop_last()) + node_count(*stack.last().0) * node_count(*stack.last().1)
    }
}

/// Every pair of nodes on the stack is a pair of coherent nodes whose
/// envelopes intersect.
pub open spec fn stack_wf<T: RTreeObject, U: RTreeObject<Envelope = T::Envelope>>(
    stack: Seq<(&RTreeNode<T>, &RTreeNode<U>)>,
) -> bool {
    forall|k: int|
        0 <= k < stack.len() ==> {
            &&& (#[trigger] stack[k]).0.coherent()
            &&& stack[k].1.coherent()
            &&& envelopes_intersect(stack[k].0.bounds(), stack[k].1.bounds())
        }
}

/// Yields the pairs of an object of one tree and an object of another whose
/// envelopes intersect.
pub struct IntersectionIterator<'a, T: RTreeObject, U: RTreeObject<Envelope = T::Envelope>> {
    todo_list: Vec<(&'a RTreeNode<T>, &'a RTreeNode<U>)>,
}

impl<'a, T: RTreeObject, U: RTreeObject<Envelope = T::Envelope>> IntersectionIterator<'a, T, U> {
    /// The pairs of nodes that wait to be looked at.
    pub closed spec fn todo(&self) -> Seq<(&'a RTreeNode<T>, &'a RTreeNode<U>)> {
        self.todo_list@
    }

    /// The pairs that have not been yielded.
    pub open spec fn remaining(&self) -> Multiset<(T, U)> {
        stack_pairs(self.todo())
    }

    /// What holds of every iterator: the nodes that wait are coherent, and
    /// the envelopes of each pair intersect.
    pub open spec fn wf(&self) -> bool {
        stack_wf(self.todo())
    }

    /// The pairs of an object below `root1` and an object below `root2`.
    pub fn new(root1: &'a ParentNode<T>, root2: &'a ParentNode<U>) -> (r: Self)
        requires
            root1.coherent(),
            root2.coherent(),
        ensures
            r.wf(),
            r.remaining() == pairs_between(root1.leaves(), root2.leaves()),
    {
        let mut intersections = IntersectionIterator { todo_list: Vec::new() };
        proof {
            assert(node_pairs(root1.as_node(), root2.as_node()) == pairs_between(
                root1.leaves(),
                root2.leaves(),
            ));
            lemma_add_empty(pairs_between(root1.leaves(), root2.leaves()));
            assert(Multiset::<(T, U)>::empty().add(pairs_between(root1.leaves(), root2.leaves()))
                =~= pairs_between(root1.leaves(), root2.leaves())) by {
                broadcast use vstd::multiset::group_multiset_axioms;
            }
        }
        intersections.add_intersecting_children(root1, root2);
        intersections
    }

    /// Puts the pair on the stack where the envelopes of its nodes intersect.
    fn push_if_intersecting(&mut self, node1: &'a RTreeNode<T>, node2: &'a RTreeNode<U>)
        requires
            old(self).wf(),
            node1.coherent(),
            node2.coherent(),
        ensures
            final(self).wf(),
            final(self).remaining() == old(self).remaining().add(node_pairs(*node1, *node2)),
            final(self).todo().len() <= old(self).todo().len() + 1,
            stack_weight(final(self).todo()) <= stack_weight(old(self).todo()) + node_count(*node1)
                * node_count(*node2),
    {
        if node1.envelope().intersects(&node2.envelope()) {
            let ghost before = self.todo_list@;
            self.todo_list.push((node1, node2));
            proof {
                assert(self.todo_list@.drop_last() =~= before);
                assert forall|k: int| 0 <= k < self.todo_list@.len() implies {
                    &&& (#[trigger] self.todo_list@[k]).0.coherent()
                    &&& self.todo_list@[k].1.coherent()
                    &&& envelopes_intersect(
                        self.todo_list@[k].0.bounds(),
                        self.todo_list@[k].1.bounds(),
                    )
                } by {
                    if k < before.len() {
                        assert(self.todo_list@[k] == before[k]);
                    }
                }
            }
        } else {
            proof {
                lemma_disjoint_nodes(*node1, *node2);
                lemma_add_empty(self.remaining());
                assert(node_count(*node1) * node_count(*node2) >= 0) by (nonlinear_arith);
            }
        }
    }

    /// Puts on the stack the pairs of a child of `parent1` and a child of
    /// `parent2` whose envelopes intersect.
    fn add_intersecting_children(&mut self, parent1: &'a ParentNode<T>, parent2: &'a ParentNode<U>)
        requires
            old(self).wf(),
            parent1.coherent(),
            parent2.coherent(),
        ensures
            final(self).wf(),
            final(self).remaining() == old(self).remaining().add(
                pairs_between(parent1.leaves(), parent2.leaves()),
            ),
            stack_weight(final(self).todo()) <= stack_weight(old(self).todo()) + node_count_of(
                parent1.children@,
            ) * node_count_of(parent2.children@),
    {
        let ghost a = parent1.as_node();
        let ghost b = parent2.as_node();
        proof {
            lemma_coherent_parent(*parent1);
            lemma_coherent_parent(*parent2);
            assert(node_count_of(parent1.children@) * node_count_of(parent2.children@) >= 0)
                by (nonlinear_arith);
        }
        if !parent1.envelope.intersects(&parent2.envelope) {
            proof {
                lemma_disjoint_nodes(a, b);
                lemma_add_empty(self.remaining());
            }
            return ;
        }
        let mut i: usize = 0;
        proof {
            assert(parent1.children@.take(0) =~= Seq::<RTreeNode<T>>::empty());
            assert(leaves_of(parent1.children@.take(0)) =~= Seq::<T>::empty());
            lemma_add_empty(self.remaining());
            assert(node_count_of(parent1.children@.take(0)) * node_count_of(parent2.children@) == 0)
                by (nonlinear_arith)
                requires
                    node_count_of(parent1.children@.take(0)) == 0,
            ;
        }
        while i < parent1.children.len()
            invariant
                i <= parent1.children@.len(),
                self.wf(),
                parent1.coherent(),
                parent2.coherent(),
                all_coherent(parent1.children@),
                all_coherent(parent2.children@),
                self.remaining() == old(self).remaining().add(
                    pairs_between(leaves_of(parent1.children@.take(i as int)), parent2.leaves()),
                ),
                stack_weight(self.todo()) <= stack_weight(old(self).todo()) + node_count_of(
                    parent1.children@.take(i as int),
                ) * node_count_of(parent2.children@),
            decreases parent1.children@.len() - i,
        {
            let child1 = &parent1.children[i];
            let ghost done1 = parent1.children@.take(i as int);
            let ghost start = self.remaining();
            let ghost start_weight = stack_weight(self.todo());
            proof {
                assert(parent1.children@.take(i as int + 1) =~= done1.push(*child1));
                assert(done1.push(*child1) =~= done1 + seq![*child1]);
                lemma_leaves_concat(done1, seq![*child1]);
                crate::node::lemma_leaves_single(*child1);
                lemma_pairs_first_concat(leaves_of(done1), child1.leaves(), parent2.leaves());
                lemma_node_count_concat(done1, seq![*child1]);
                lemma_node_count_single(*child1);
            }
            if child1.envelope().intersects(&parent2.envelope) {
                let mut j: usize = 0;
                proof {
                    assert(parent2.children@.take(0) =~= Seq::<RTreeNode<U>>::empty());
                    assert(leaves_of(parent2.children@.take(0)) =~= Seq::<U>::empty());
                    lemma_pairs_second_empty::<T, U>(child1.leaves());
                    lemma_add_empty(start);
                    assert(node_count(*child1) * node_count_of(parent2.children@.take(0)) == 0)
                        by (nonlinear_arith)
                        requires
                            node_count_of(parent2.children@.take(0)) == 0,
                    ;
                }
                while j < parent2.children.len()
                    invariant
                        j <= parent2.children@.len(),
                        i < parent1.children@.len(),
                        *child1 == parent1.children@[i as int],
                        self.wf(),
                        child1.coherent(),
                        parent1.coherent(),
                        all_coherent(parent2.children@),
                        self.remaining() == start.add(
                            pairs_between(
                                child1.leaves(),
                                leaves_of(parent2.children@.take(j as int)),
                            ),
                        ),
                        stack_weight(self.todo()) <= start_weight + node_count(*child1) * node_count_of(
                            parent2.children@.take(j as int),
                        ),
                    decreases parent2.children@.len() - j,
                {
                    let child2 = &parent2.children[j];
                    let ghost done2 = parent2.children@.take(j as int);
                    let ghost inner = self.remaining();
                    proof {
                        assert(parent2.children@.take(j as int + 1) =~= done2 + seq![*child2]);
                        lemma_leaves_concat(done2, seq![*child2]);
                        crate::node::lemma_leaves_single(*child2);
                        lemma_pairs_second_concat(child1.leaves(), leaves_of(done2), child2.leaves());
                        lemma_node_count_concat(done2, seq![*child2]);
                        lemma_node_count_single(*child2);
                        assert(node_count(*child1) * (node_count_of(done2) + node_count(*child2))
                            == node_count(*child1) * node_count_of(done2) + node_count(*child1)
                            * node_count(*child2)) by (nonlinear_arith);
                    }
                    if child2.envelope().intersects(&parent1.envelope) {
                        self.push_if_intersecting(child1, child2);
                    } else {
                        proof {
                            // child2 misses parent1, so it misses child1, which lies in it.
                            lemma_child_within(*parent1, i as int);
                            if envelopes_intersect(child1.bounds(), child2.bounds()) {
                                lemma_intersects_symmetric(child1.bounds(), child2.bounds());
                                lemma_intersection_grows(
                                    child2.bounds(),
                                    child1.bounds(),
                                    parent1.envelope.bounds(),
                                );
                            }
                            lemma_disjoint_nodes(*child1, *child2);
                            lemma_add_empty(inner);
                            assert(node_count(*child1) * node_count(*child2) >= 0) by (nonlinear_arith);
                        }
                    }
                    proof {
                        lemma_bag_assoc(
                            start,
                            node_pairs(*child1, *child2),
                            pairs_between(child1.leaves(), leaves_of(done2)),
                        );
                        assert(pairs_between(child1.leaves(), leaves_of(done2)).add(
                            node_pairs(*child1, *child2),
                        ) =~= node_pairs(*child1, *child2).add(
                            pairs_between(child1.leaves(), leaves_of(done2)),
                        )) by {
                            broadcast use vstd::multiset::group_multiset_axioms;
                        }
                        assert(self.remaining() =~= start.add(
                            pairs_between(
                                child1.leaves(),
                                leaves_of(parent2.children@.take(j as int + 1)),
                            ),
                        )) by {
                            broadcast use vstd::multiset::group_multiset_axioms;
                        }
                    }
                    j = j + 1;
                }
                proof {
                    assert(parent2.children@.take(j as int) =~= parent2.children@);
                }
            } else {
                proof {
                    lemma_disjoint_nodes(*child1, parent2.as_node());
                    lemma_add_empty(start);
                    assert(node_count(*child1) * node_count_of(parent2.children@) >= 0)
                        by (nonlinear_arith);
                }
            }
            proof {
                // What is on the stack now: what was, and the pairs of child1.
                assert(self.remaining() == start.add(pairs_between(child1.leaves(), parent2.leaves())));
                assert(self.remaining() =~= old(self).remaining().add(
                    pairs_between(
                        leaves_of(parent1.children@.take(i as int + 1)),
                        parent2.leaves(),
                    ),
                )) by {
                    broadcast use vstd::multiset::group_multiset_axioms;
                }
                assert((node_count_of(done1) + node_count(*child1)) * node_count_of(parent2.children@)
                    == node_count_of(done1) * node_count_of(parent2.children@) + node_count(*child1)
                    * node_count_of(parent2.children@)) by (nonlinear_arith);
            }
            i = i + 1;
        }
        proof {
            assert(parent1.children@.take(i as int) =~= parent1.children@);
        }
    }

    /// The next pair of objects whose envelopes intersect; `None` once all
    /// have been yielded.
    pub fn next(&mut self) -> (r: Option<(&'a T, &'a U)>)
        requires
            old(self).wf(),
        ensures
            final(self).wf(),
            r is None <==> old(self).remaining().len() == 0,
            r is None ==> final(self).remaining().len() == 0,
            r is Some ==> {
                let found = r->0;
                let pair = (*found.0, *found.1);
                &&& objects_intersect(pair.0, pair.1)
                &&& old(self).remaining().count(pair) > 0
                &&& final(self).remaining() == old(self).remaining().remove(pair)
            },
    {
        loop
            invariant
                self.wf(),
                self.remaining() == old(self).remaining(),
            decreases stack_weight(self.todo()),
        {
            let ghost before = self.todo_list@;
            match self.todo_list.pop() {
                None => {
                    return None;
                },
                Some(next) => {
                    let ghost rest = self.todo_list@;
                    let ghost waiting = stack_pairs(rest);
                    proof {
                        assert(before.drop_last() =~= rest);
                        assert(before.last() == next);
                        assert(stack_wf(rest)) by {
                            assert forall|k: int| 0 <= k < rest.len() implies {
                                &&& (#[trigger] rest[k]).0.coherent()
                                &&& rest[k].1.coherent()
                                &&& envelopes_intersect(rest[k].0.bounds(), rest[k].1.bounds())
                            } by {
                                assert(rest[k] == before[k]);
                            }
                        }
                        assert(before[before.len() - 1] == next);
                    }
                    match next {
                        (RTreeNode::Leaf(t1), RTreeNode::Leaf(t2)) => {
                            proof {
                                lemma_leaf_pairs(*t1, *t2);
                                lemma_pair_leaves(waiting, (*t1, *t2));
                            }
                            return Some((t1, t2));
                        },
                        (RTreeNode::Leaf(_), RTreeNode::Parent(p)) => {
                            let leaf = next.0;
                            let mut j: usize = 0;
                            proof {
                                lemma_coherent_parent(*p);
                                assert(p.children@.take(0) =~= Seq::<RTreeNode<U>>::empty());
                                assert(leaves_of(p.children@.take(0)) =~= Seq::<U>::empty());
                                lemma_pairs_second_empty::<T, U>(leaf.leaves());
                                lemma_add_empty(waiting);
                                assert(node_count(*leaf) == 1);
                            }
                            while j < p.children.len()
                                invariant
                                    j <= p.children@.len(),
                                    self.wf(),
                                    leaf.coherent(),
                                    node_count(*leaf) == 1,
                                    all_coherent(p.children@),
                                    self.remaining() == waiting.add(
                                        pairs_between(
                                            leaf.leaves(),
                                            leaves_of(p.children@.take(j as int)),
                                        ),
                                    ),
                                    stack_weight(self.todo()) <= stack_weight(rest) + node_count_of(
                                        p.children@.take(j as int),
                                    ),
                                decreases p.children@.len() - j,
                            {
                                let child = &p.children[j];
                                let ghost done = p.children@.take(j as int);
                                proof {
                                    assert(p.children@.take(j as int + 1) =~= done + seq![*child]);
                                    lemma_leaves_concat(done, seq![*child]);
                                    crate::node::lemma_leaves_single(*child);
                                    lemma_pairs_second_concat(
                                        leaf.leaves(),
                                        leaves_of(done),
                                        child.leaves(),
                                    );
                                    lemma_node_count_concat(done, seq![*child]);
                                    lemma_node_count_single(*child);
                                    assert(1 * node_count(*child) == node_count(*child)) by (nonlinear_arith);
                                    lemma_bag_assoc(
                                        waiting,
                                        node_pairs(*leaf, *child),
                                        pairs_between(leaf.leaves(), leaves_of(done)),
                                    );
                                    assert(pairs_between(leaf.leaves(), leaves_of(done)).add(
                                        node_pairs(*leaf, *child),
                                    ) =~= node_pairs(*leaf, *child).add(
                                        pairs_between(leaf.leaves(), leaves_of(done)),
                                    )) by {
                                        broadcast use vstd::multiset::group_multiset_axioms;
                                    }
                                }
                                self.push_if_intersecting(leaf, child);
                                proof {
                                    assert(self.remaining() =~= waiting.add(
                                        pairs_between(
                                            leaf.leaves(),
                                            leaves_of(p.children@.take(j as int + 1)),
                                        ),
                                    )) by {
                                        broadcast use vstd::multiset::group_multiset_axioms;
                                    }
                                }
                                j = j + 1;
                            }
                            proof {
                                assert(p.children@.take(j as int) =~= p.children@);
                                assert(next.1.leaves() == leaves_of(p.children@));
                                assert(node_count(*next.1) == 1 + node_count_of(p.children@));
                                assert(1 * node_count(*next.1) == node_count(*next.1)) by (nonlinear_arith);
                            }
                        },
                        (RTreeNode::Parent(p), RTreeNode::Leaf(_)) => {
                            let leaf = next.1;
                            let mut i: usize = 0;
                            proof {
                                lemma_coherent_parent(*p);
                                assert(p.children@.take(0) =~= Seq::<RTreeNode<T>>::empty());
                                assert(leaves_of(p.children@.take(0)) =~= Seq::<T>::empty());
                                lemma_add_empty(waiting);
                                assert(node_count(*leaf) == 1);
                            }
                            while i < p.children.len()
                                invariant
                                    i <= p.children@.len(),
                                    self.wf(),
                                    leaf.coherent(),
                                    node_count(*leaf) == 1,
                                    all_coherent(p.children@),
                                    self.remaining() == waiting.add(
                                        pairs_between(
                                            leaves_of(p.children@.take(i as int)),
                                            leaf.leaves(),
                                        ),
                                    ),
                                    stack_weight(self.todo()) <= stack_weight(rest) + node_count_of(
                                        p.children@.take(i as int),
                                    ),
                                decreases p.children@.len() - i,
                            {
                                let child = &p.children[i];
                                let ghost done = p.children@.take(i as int);
                                proof {
                                    assert(p.children@.take(i as int + 1) =~= done + seq![*child]);
                                    lemma_leaves_concat(done, seq![*child]);
                                    crate::node::lemma_leaves_single(*child);
                                    lemma_pairs_first_concat(
                                        leaves_of(done),
                                        child.leaves(),
                                        leaf.leaves(),
                                    );
                                    lemma_node_count_concat(done, seq![*child]);
                                    lemma_node_count_single(*child);
                                    assert(node_count(*child) * 1 == node_count(*child)) by (nonlinear_arith);
                                    lemma_bag_assoc(
                                        waiting,
                                        node_pairs(*child, *leaf),
                                        pairs_between(leaves_of(done), leaf.leaves()),
                                    );
                                    assert(pairs_between(leaves_of(done), leaf.leaves()).add(
                                        node_pairs(*child, *leaf),
                                    ) =~= node_pairs(*child, *leaf).add(
                                        pairs_between(leaves_of(done), leaf.leaves()),
                                    )) by {
                                        broadcast use vstd::multiset::group_multiset_axioms;
                                    }
                                }
                                self.push_if_intersecting(child, leaf);
                                proof {
                                    assert(self.remaining() =~= waiting.add(
                                        pairs_between(
                                            leaves_of(p.children@.take(i as int + 1)),
                                            leaf.leaves(),
                                        ),
                                    )) by {
                                        broadcast use vstd::multiset::group_multiset_axioms;
                                    }
                                }
                                i = i + 1;
                            }
                            proof {
                                assert(p.children@.take(i as int) =~= p.children@);
                                assert(next.0.leaves() == leaves_of(p.children@));
                                assert(node_count(*next.0) == 1 + node_count_of(p.children@));
                                assert(node_count(*next.0) * 1 == node_count(*next.0)) by (nonlinear_arith);
                            }
                        },
                        (RTreeNode::Parent(p1), RTreeNode::Parent(p2)) => {
                            self.add_intersecting_children(p1, p2);
                            proof {
                                assert(next.0.leaves() == p1.leaves());
                                assert(next.1.leaves() == p2.leaves());
                                let s1 = node_count_of(p1.children@);
                                let s2 = node_count_of(p2.children@);
                                assert(s1 * s2 < (1 + s1) * (1 + s2)) by (nonlinear_arith)
                                    requires
                                        s1 >= 0,
                                        s2 >= 0,
                                ;
                            }
                        },
                    }
                },
            }
        }
    }
}

/// The envelope of a coherent parent contains the envelopes of its children.
pub proof fn lemma_child_within<T: RTreeObject>(p: ParentNode<T>, j: int)
    requires
        p.coherent(),
        0 <= j < p.children@.len(),
    ensures
        envelope_contains(p.envelope.bounds(), p.children@[j].bounds()),
{
    let b = p.envelope.bounds();
    let c = p.children@[j].bounds();
    assert forall|i: int|
        #![trigger crate::aabb::lo(b, i)]
        #![trigger crate::aabb::hi(b, i)]
        #![trigger crate::aabb::lo(c, i)]
        #![trigger crate::aabb::hi(c, i)]
        0 <= i < crate::aabb::dims::<PointOf<T>>() implies crate::aabb::lo(b, i) <= crate::aabb::lo(
        c,
        i,
    ) && crate::aabb::hi(c, i) <= crate::aabb::hi(b, i) by {
        lemma_union_around(p.children@, j, i);
    }
}

/// Taking the pair that was put last on what waits gives what waited.
pub proof fn lemma_pair_leaves<V>(waiting: Multiset<V>, pair: V)
    ensures
        waiting.add(Multiset::<V>::empty().insert(pair)).count(pair) > 0,
        waiting.add(Multiset::<V>::empty().insert(pair)).remove(pair) == waiting,
        waiting.add(Multiset::<V>::empty().insert(pair)).len() > 0,
{
    broadcast use vstd::multiset::group_multiset_axioms;

    let all = waiting.add(Multiset::<V>::empty().insert(pair));
    assert(all.remove(pair) =~= waiting);
    assert(all.count(pair) > 0);
    vstd::multiset::lemma_multiset_empty_len(all);
}

} // verus!
