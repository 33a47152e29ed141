//! Searches steered by a selection function.

use crate::algorithm::node_stack::NodeStack;
use crate::algorithm::selection_functions::{is_exact, SelectionFunction};
use crate::aabb::{dims, envelope_contains, hi, lo, AABB};
use crate::envelope::Envelope;
use crate::node::{
    all_coherent, leaves_of, lemma_node_count_concat, lemma_node_count_single, node_count,
    node_count_of, union_hi,
    union_lo, ParentNode, PointOf, RTreeNode,
};
use crate::object::RTreeObject;
use vstd::prelude::*;

verus! {

/// The objects that `refs` point to.
pub open spec fn values<T>(refs: Seq<&T>) -> Seq<T> {
    refs.map_values(|t: &T| *t)
}

/// The objects among `leaves` that `f` selects, in their order.
pub open spec fn accepted<T: RTreeObject, F: SelectionFunction<T>>(leaves: Seq<T>, f: F) -> Seq<T>
    decreases leaves.len(),
{
    if leaves.len() == 0 {
        Seq::empty()
    } else if f.unpacks_leaf(leaves.last()) {
        accepted(leaves.drop_last(), f).push(leaves.last())
    } else {
        accepted(leaves.drop_last(), f)
    }
}

/// What a search with `f` yields of `node`: the leaves that `f` selects, below
/// parents whose envelopes `f` accepts all the way down.
pub open spec fn selected<T: RTreeObject, F: SelectionFunction<T>>(node: RTreeNode<T>, f: F) -> Seq<T>
    decreases node,
{
    match node {
        RTreeNode::Leaf(t) => if f.unpacks_leaf(t) {
            seq![t]
        } else {
            Seq::empty()
        },
        RTreeNode::Parent(p) => if f.unpacks_parent(p.envelope) {
            selected_of(p.children@, f)
        } else {
            Seq::empty()
        },
    }
}

/// What a search with `f` yields of `nodes`, from the first node to the last.
pub open spec fn selected_of<T: RTreeObject, F: SelectionFunction<T>>(
    nodes: Seq<RTreeNode<T>>,
    f: F,
) -> Seq<T>
    decreases nodes,
{
    if nodes.len() == 0 {
        Seq::empty()
    } else {
        selected_of(nodes.drop_last(), f) + selected(nodes.last(), f)
    }
}

/// All objects below `root` that a search with `func` yields, in the order of
/// the children.
pub fn select_nodes<'a, T: RTreeObject, Func: SelectionFunction<T>>(
    root: &'a ParentNode<T>,
    func: &Func,
) -> (r: Vec<&'a T>)
    requires
        func.wf(),
    ensures
        values(r@) == selected(root.as_node(), *func),
{
    let mut result: Vec<&'a T> = Vec::new();
    if func.should_unpack_parent(&root.envelope) {
        select_below(root, func, &mut result);
        assert(values(result@) =~= selected(root.as_node(), *func));
    } else {
        assert(values(result@) =~= selected(root.as_node(), *func));
    }
    result
}

/// Appends to `result` what a search with `func` yields of the children of
/// `parent`.
fn select_below<'a, T: RTreeObject, Func: SelectionFunction<T>>(
    parent: &'a ParentNode<T>,
    func: &Func,
    result: &mut Vec<&'a T>,
)
    requires
        func.wf(),
    ensures
        values(final(result)@) == values(old(result)@) + selected_of(parent.children@, *func),
    decreases parent.height(),
{
    let mut k: usize = 0;
    assert(parent.children@.take(0) =~= Seq::empty());
    assert(values(result@) =~= values(old(result)@) + Seq::<T>::empty());
    while k < parent.children.len()
        invariant
            k <= parent.children.len(),
            func.wf(),
            values(result@) == values(old(result)@) + selected_of(
                parent.children@.take(k as int),
                *func,
            ),
        decreases parent.children.len() - k,
    {
        let ghost before = result@;
        let ghost prefix = parent.children@.take(k as int);
        let ghost next = parent.children@.take(k as int + 1);
        proof {
            assert(next.drop_last() =~= prefix);
            assert(next.last() == parent.children@[k as int]);
            crate::node::lemma_child_height(parent.children@, k as int);
        }
        match &parent.children[k] {
            RTreeNode::Leaf(t) => {
                if func.should_unpack_leaf(t) {
                    result.push(t);
                    assert(values(result@) =~= values(before).push(*t));
                }
            },
            RTreeNode::Parent(data) => {
                if func.should_unpack_parent(&data.envelope) {
                    select_below(data, func, result);
                }
            },
        }
        assert(values(result@) =~= values(before) + selected(parent.children@[k as int], *func));
        assert(values(result@) =~= values(old(result)@) + selected_of(next, *func));
        k = k + 1;
    }
    assert(parent.children@.take(k as int) =~= parent.children@);
}


/// The first object below `root` that a search with `func` yields; `None`
/// where it yields nothing.
pub fn select_first<'a, T: RTreeObject, Func: SelectionFunction<T>>(
    root: &'a ParentNode<T>,
    func: &Func,
) -> (r: Option<&'a T>)
    requires
        func.wf(),
    ensures
        r is None <==> selected(root.as_node(), *func).len() == 0,
        r is Some ==> *r->0 == selected(root.as_node(), *func)[0],
    decreases root.height(),
{
    if !func.should_unpack_parent(&root.envelope) {
        return None;
    }
    let mut k: usize = 0;
    while k < root.children.len()
        invariant
            k <= root.children@.len(),
            func.wf(),
            func.unpacks_parent(root.envelope),
            forall|j: int| 0 <= j < k ==> selected(#[trigger] root.children@[j], *func).len() == 0,
        decreases root.children@.len() - k,
    {
        proof {
            crate::node::lemma_child_height(root.children@, k as int);
        }
        match &root.children[k] {
            RTreeNode::Leaf(t) => {
                if func.should_unpack_leaf(t) {
                    proof {
                        crate::algorithm::removal::lemma_selected_of_first(
                            root.children@,
                            *func,
                            k as int,
                        );
                    }
                    return Some(t);
                }
            },
            RTreeNode::Parent(data) => {
                let found = select_first(data, func);
                if found.is_some() {
                    proof {
                        crate::algorithm::removal::lemma_selected_of_first(
                            root.children@,
                            *func,
                            k as int,
                        );
                    }
                    return found;
                }
            },
        }
        k = k + 1;
    }
    proof {
        crate::algorithm::removal::lemma_selected_of_none(root.children@, *func);
    }
    None
}

/// What `f` selects of two runs of objects is what it selects of the first,
/// then what it selects of the second.
pub proof fn lemma_accepted_concat<T: RTreeObject, F: SelectionFunction<T>>(a: Seq<T>, b: Seq<T>, f: F)
    ensures
        accepted(a + b, f) == accepted(a, f) + accepted(b, f),
    decreases b.len(),
{
    if b.len() == 0 {
        assert(a + b =~= a);
        assert(accepted(a, f) + accepted(b, f) =~= accepted(a, f));
    } else {
        lemma_accepted_concat(a, b.drop_last(), f);
        assert((a + b).drop_last() =~= a + b.drop_last());
        assert((a + b).last() == b.last());
        if f.unpacks_leaf(b.last()) {
            assert(accepted(a + b, f) =~= accepted(a, f) + accepted(b, f));
        } else {
            assert(accepted(a + b, f) =~= accepted(a, f) + accepted(b, f));
        }
    }
}

/// Where `f` selects none of the objects, it selects nothing.
pub proof fn lemma_accepted_none<T: RTreeObject, F: SelectionFunction<T>>(leaves: Seq<T>, f: F)
    requires
        forall|k: int| 0 <= k < leaves.len() ==> !f.unpacks_leaf(#[trigger] leaves[k]),
    ensures
        accepted(leaves, f) == Seq::<T>::empty(),
    decreases leaves.len(),
{
    if leaves.len() > 0 {
        assert(!f.unpacks_leaf(leaves[leaves.len() - 1]));
        assert forall|k: int| 0 <= k < leaves.drop_last().len() implies !f.unpacks_leaf(
            #[trigger] leaves.drop_last()[k],
        ) by {
            assert(leaves.drop_last()[k] == leaves[k]);
        }
        lemma_accepted_none(leaves.drop_last(), f);
    }
}

/// The envelope of a coherent node contains the envelope of every object
/// below it.
pub proof fn lemma_leaves_within<T: RTreeObject>(node: RTreeNode<T>, k: int)
    requires
        node.coherent(),
        0 <= k < node.leaves().len(),
    ensures
        envelope_contains(node.bounds(), node.leaves()[k].envelope_spec().bounds()),
    decreases node, 1nat,
{
    match node {
        RTreeNode::Leaf(t) => {
            assert(node.leaves()[k] == t);
            lemma_contains_itself(node.bounds());
        },
        RTreeNode::Parent(p) => {
            assert forall|j: int| 0 <= j < p.children@.len() implies envelope_contains(
                p.envelope.bounds(),
                (#[trigger] p.children@[j]).bounds(),
            ) by {
                let b = p.envelope.bounds();
                let c = p.children@[j].bounds();
                assert forall|i: int|
                    #![trigger lo(b, i)]
                    #![trigger hi(b, i)]
                    #![trigger lo(c, i)]
                    #![trigger hi(c, i)]
                    0 <= i < dims::<PointOf<T>>() implies lo(b, i) <= lo(c, i) && hi(c, i) <= hi(
                    b,
                    i,
                ) by {
                    lemma_union_around(p.children@, j, i);
                }
            }
            lemma_leaves_within_run(p.children@, p.envelope.bounds(), k);
        },
    }
}

/// A box that is the union of the envelopes of coherent nodes contains the
/// envelope of every object below them.
pub proof fn lemma_leaves_within_run<T: RTreeObject>(
    nodes: Seq<RTreeNode<T>>,
    b: AABB<PointOf<T>>,
    k: int,
)
    requires
        all_coherent(nodes),
        forall|j: int|
            0 <= j < nodes.len() ==> envelope_contains(b, (#[trigger] nodes[j]).bounds()),
        0 <= k < leaves_of(nodes).len(),
    ensures
        envelope_contains(b, leaves_of(nodes)[k].envelope_spec().bounds()),
    decreases nodes, 0nat,
{
    let rest = nodes.drop_last();
    let last = nodes.last();
    if nodes.len() == 0 {
    } else if k < leaves_of(rest).len() {
        assert(all_coherent(rest)) by {
            assert forall|j: int| 0 <= j < rest.len() implies (#[trigger] rest[j]).coherent() by {
                assert(rest[j] == nodes[j]);
            }
        }
        assert forall|j: int| 0 <= j < rest.len() implies envelope_contains(
            b,
            (#[trigger] rest[j]).bounds(),
        ) by {
            assert(rest[j] == nodes[j]);
        }
        lemma_leaves_within_run(rest, b, k);
    } else {
        let m = k - leaves_of(rest).len();
        assert(last == nodes[nodes.len() - 1]);
        assert(last.coherent());
        lemma_leaves_within(last, m);
        let inner = last.leaves()[m].envelope_spec().bounds();
        assert(leaves_of(nodes)[k] == last.leaves()[m]);
        assert forall|i: int|
            #![trigger lo(b, i)]
            #![trigger hi(b, i)]
            #![trigger lo(inner, i)]
            #![trigger hi(inner, i)]
            0 <= i < dims::<PointOf<T>>() implies lo(b, i) <= lo(inner, i) && hi(inner, i) <= hi(
            b,
            i,
        ) by {
            assert(envelope_contains(b, nodes[nodes.len() - 1].bounds()));
            assert(lo(last.bounds(), i) <= lo(inner, i));
            assert(lo(b, i) <= lo(last.bounds(), i));
        }
    }
}

/// A box contains itself.
pub proof fn lemma_contains_itself<P: crate::point::Point>(b: AABB<P>)
    ensures
        envelope_contains(b, b),
{
    assert forall|i: int|
        #![trigger lo(b, i)]
        #![trigger hi(b, i)]
        0 <= i < dims::<P>() implies lo(b, i) <= lo(b, i) && hi(b, i) <= hi(b, i) by {}
}

/// The union of the envelopes of nodes lies around each of them.
pub proof fn lemma_union_around<T: RTreeObject>(nodes: Seq<RTreeNode<T>>, j: int, i: int)
    requires
        0 <= j < nodes.len(),
    ensures
        union_lo(nodes, i) <= lo(nodes[j].bounds(), i),
        hi(nodes[j].bounds(), i) <= union_hi(nodes, i),
    decreases nodes.len(),
{
    if j < nodes.len() - 1 {
        lemma_union_around(nodes.drop_last(), j, i);
    }
}

/// A search through a coherent tree with a selection function that prunes no
/// parent above an object it selects yields exactly the objects of the tree
/// that the function accepts, in the order of the tree.
pub proof fn lemma_selected_exact<T: RTreeObject, F: SelectionFunction<T>>(node: RTreeNode<T>, f: F)
    requires
        node.coherent(),
        is_exact::<T, F>(f),
    ensures
        selected(node, f) == accepted(node.leaves(), f),
    decreases node, 1nat,
{
    match node {
        RTreeNode::Leaf(t) => {
            let one = seq![t];
            assert(one.drop_last() =~= Seq::<T>::empty());
            assert(accepted(one.drop_last(), f) =~= Seq::<T>::empty());
            assert(one.last() == t);
            if f.unpacks_leaf(t) {
                assert(accepted(one, f) =~= seq![t]);
            } else {
                assert(accepted(one, f) =~= Seq::<T>::empty());
            }
        },
        RTreeNode::Parent(p) => {
            if f.unpacks_parent(p.envelope) {
                lemma_selected_exact_run(p.children@, f);
            } else {
                assert forall|k: int| 0 <= k < node.leaves().len() implies !f.unpacks_leaf(
                    #[trigger] node.leaves()[k],
                ) by {
                    lemma_leaves_within(node, k);
                    let t = node.leaves()[k];
                    if f.unpacks_leaf(t) {
                        assert(f.unpacks_parent(p.envelope));
                    }
                }
                lemma_accepted_none(node.leaves(), f);
            }
        },
    }
}

/// [`lemma_selected_exact`] for a run of nodes.
pub proof fn lemma_selected_exact_run<T: RTreeObject, F: SelectionFunction<T>>(
    nodes: Seq<RTreeNode<T>>,
    f: F,
)
    requires
        all_coherent(nodes),
        is_exact::<T, F>(f),
    ensures
        selected_of(nodes, f) == accepted(leaves_of(nodes), f),
    decreases nodes, 0nat,
{
    if nodes.len() == 0 {
        assert(accepted(leaves_of(nodes), f) =~= Seq::<T>::empty());
    } else {
        let rest = nodes.drop_last();
        assert(all_coherent(rest)) by {
            assert forall|j: int| 0 <= j < rest.len() implies (#[trigger] rest[j]).coherent() by {
                assert(rest[j] == nodes[j]);
            }
        }
        assert(nodes.last() == nodes[nodes.len() - 1]);
        lemma_selected_exact_run(rest, f);
        lemma_selected_exact(nodes.last(), f);
        lemma_accepted_concat(leaves_of(rest), nodes.last().leaves(), f);
    }
}


/// An object that `f` accepts is among those that it selects.
pub proof fn lemma_accepted_contains<T: RTreeObject, F: SelectionFunction<T>>(
    leaves: Seq<T>,
    f: F,
    k: int,
)
    requires
        0 <= k < leaves.len(),
        f.unpacks_leaf(leaves[k]),
    ensures
        accepted(leaves, f).contains(leaves[k]),
    decreases leaves.len(),
{
    let rest = leaves.drop_last();
    if k == leaves.len() - 1 {
        let acc = accepted(rest, f);
        assert(accepted(leaves, f) == acc.push(leaves[k]));
        assert(acc.push(leaves[k])[acc.len() as int] == leaves[k]);
    } else {
        lemma_accepted_contains(rest, f, k);
        let acc = accepted(rest, f);
        let j = choose|j: int| 0 <= j < acc.len() && acc[j] == rest[k];
        if f.unpacks_leaf(leaves.last()) {
            assert(acc.push(leaves.last())[j] == leaves[k]);
        } else {
            assert(acc[j] == leaves[k]);
        }
    }
}

/// Every object that `f` selects is one of the objects, and one that it
/// accepts.
pub proof fn lemma_accepted_sound<T: RTreeObject, F: SelectionFunction<T>>(
    leaves: Seq<T>,
    f: F,
    k: int,
)
    requires
        0 <= k < accepted(leaves, f).len(),
    ensures
        f.unpacks_leaf(accepted(leaves, f)[k]),
        leaves.contains(accepted(leaves, f)[k]),
    decreases leaves.len(),
{
    if leaves.len() > 0 {
        let rest = leaves.drop_last();
        let acc = accepted(rest, f);
        if k < acc.len() {
            lemma_accepted_sound(rest, f, k);
            let j = choose|j: int| 0 <= j < rest.len() && rest[j] == acc[k];
            assert(leaves[j] == acc[k]);
            if f.unpacks_leaf(leaves.last()) {
                assert(acc.push(leaves.last())[k] == acc[k]);
            }
        } else {
            assert(f.unpacks_leaf(leaves.last()));
            assert(acc.push(leaves.last())[k] == leaves.last());
            assert(leaves[leaves.len() - 1] == leaves.last());
        }
    }
}


/// The first object below `root` that a search with `func` yields, to be
/// changed in place; `None` where it yields nothing.
///
/// The search first looks for the child below which the object lies, and then
/// goes into that child alone. Whoever changes the object answers for its
/// envelope: the tree is what it was only as long as the envelope stays.
pub fn select_first_mut<'a, T: RTreeObject, F: SelectionFunction<T>>(
    root: &'a mut ParentNode<T>,
    func: &F,
) -> (r: Option<&'a mut T>)
    requires
        func.wf(),
    ensures
        r is None <==> selected(old(root).as_node(), *func).len() == 0,
        r is Some ==> *r->0 == selected(old(root).as_node(), *func)[0],
    decreases old(root).height(),
{
    if !func.should_unpack_parent(&root.envelope) {
        return None;
    }
    let mut k: usize = 0;
    while k < root.children.len()
        invariant
            k <= root.children@.len(),
            func.wf(),
            *root == *old(root),
            func.unpacks_parent(root.envelope),
            forall|j: int| 0 <= j < k ==> selected(#[trigger] root.children@[j], *func).len() == 0,
        ensures
            k < root.children@.len() ==> selected(root.children@[k as int], *func).len() > 0,
        decreases root.children@.len() - k,
    {
        proof {
            crate::node::lemma_child_height(root.children@, k as int);
        }
        let hit = match &root.children[k] {
            RTreeNode::Leaf(t) => func.should_unpack_leaf(t),
            RTreeNode::Parent(data) => select_first(data, func).is_some(),
        };
        if hit {
            break ;
        }
        k = k + 1;
    }
    if k == root.children.len() {
        proof {
            crate::algorithm::removal::lemma_selected_of_none(root.children@, *func);
        }
        return None;
    }
    proof {
        crate::algorithm::removal::lemma_selected_of_first(root.children@, *func, k as int);
        crate::node::lemma_child_height(root.children@, k as int);
    }
    match &mut root.children[k] {
        RTreeNode::Leaf(t) => Some(t),
        RTreeNode::Parent(data) => select_first_mut(data, func),
    }
}

/// What a search yields of two runs of nodes is what it yields of the first,
/// then what it yields of the second.
pub proof fn lemma_selected_of_concat<T: RTreeObject, F: SelectionFunction<T>>(
    a: Seq<RTreeNode<T>>,
    b: Seq<RTreeNode<T>>,
    f: F,
)
    ensures
        selected_of(a + b, f) == selected_of(a, f) + selected_of(b, f),
    decreases b.len(),
{
    if b.len() == 0 {
        assert(a + b =~= a);
        assert(selected_of(a, f) + selected_of(b, f) =~= selected_of(a, f));
    } else {
        lemma_selected_of_concat(a, b.drop_last(), f);
        assert((a + b).drop_last() =~= a + b.drop_last());
        assert((a + b).last() == b.last());
        assert(selected_of(a + b, f) =~= selected_of(a, f) + selected_of(b, f));
    }
}

/// What a search yields of a run of one node is what it yields of the node.
pub proof fn lemma_selected_of_single<T: RTreeObject, F: SelectionFunction<T>>(x: RTreeNode<T>, f: F)
    ensures
        selected_of(seq![x], f) == selected(x, f),
{
    let one = seq![x];
    assert(one.drop_last() =~= Seq::<RTreeNode<T>>::empty());
    assert(selected_of(one.drop_last(), f) =~= Seq::<T>::empty());
    assert(one.last() == x);
    assert(selected_of(one, f) =~= selected(x, f));
}

/// What an iterator yields of the nodes on its stack: what a search yields of
/// them, from the top of the stack down.
pub open spec fn selected_down<T: RTreeObject, F: SelectionFunction<T>>(
    stack: Seq<RTreeNode<T>>,
    f: F,
) -> Seq<T> {
    selected_of(stack.reverse(), f)
}

/// The nodes that the numbers `items` stand for among `nodes`.
pub open spec fn pointed<T: RTreeObject>(nodes: Seq<&RTreeNode<T>>, items: Seq<usize>) -> Seq<
    RTreeNode<T>,
> {
    Seq::new(items.len(), |k: int| *nodes[items[k] as int])
}

/// Every number of `items` stands for one of `count` nodes.
pub open spec fn all_below(items: Seq<usize>, count: nat) -> bool {
    forall|k: int| 0 <= k < items.len() ==> #[trigger] items[k] < count
}

/// Yields the objects of a tree that a selection function selects.
///
/// The iterator keeps the nodes that it has met, and on a stack the numbers
/// of those that it has not looked at. [`pending`](Self::pending) is what it
/// has yet to yield.
pub struct SelectionIterator<'a, T: RTreeObject, Func: SelectionFunction<T>> {
    func: Func,
    nodes: Vec<&'a RTreeNode<T>>,
    current_nodes: NodeStack,
}

impl<'a, T: RTreeObject, Func: SelectionFunction<T>> SelectionIterator<'a, T, Func> {
    /// The selection function.
    pub closed spec fn func_spec(&self) -> Func {
        self.func
    }

    /// The nodes on the stack.
    pub closed spec fn stack(&self) -> Seq<RTreeNode<T>> {
        pointed(self.nodes@, self.current_nodes.items())
    }

    /// What holds of every iterator: the selection function is as it should
    /// be, and the numbers on the stack stand for nodes that the iterator
    /// has met.
    pub closed spec fn wf(&self) -> bool {
        &&& self.func.wf()
        &&& all_below(self.current_nodes.items(), self.nodes@.len())
    }

    /// The objects that the iterator has yet to yield, in their order.
    pub open spec fn pending(&self) -> Seq<T> {
        selected_down(self.stack(), self.func_spec())
    }

    /// An iterator over the objects below `root` that `func` selects.
    pub fn new(root: &'a ParentNode<T>, func: Func) -> (r: Self)
        requires
            func.wf(),
        ensures
            r.wf(),
            r.func_spec() == func,
            r.pending() == selected(root.as_node(), func),
    {
        let mut nodes: Vec<&'a RTreeNode<T>> = Vec::new();
        let mut current_nodes = NodeStack::new();
        if func.should_unpack_parent(&root.envelope) {
            extend_stack(&mut nodes, &mut current_nodes, root.children.as_slice());
            proof {
                let stack = pointed(nodes@, current_nodes.items());
                assert(stack =~= root.children@.reverse());
                assert(stack.reverse() =~= root.children@);
            }
        } else {
            proof {
                let stack = pointed(nodes@, current_nodes.items());
                assert(stack =~= Seq::<RTreeNode<T>>::empty());
                assert(stack.reverse() =~= Seq::<RTreeNode<T>>::empty());
            }
        }
        SelectionIterator { func, nodes, current_nodes }
    }

    /// The next object that the selection function selects; `None` once all
    /// have been yielded.
    pub fn next(&mut self) -> (r: Option<&'a T>)
        requires
            old(self).wf(),
        ensures
            final(self).wf(),
            final(self).func_spec() == old(self).func_spec(),
            r is None <==> old(self).pending().len() == 0,
            r is None ==> final(self).pending().len() == 0,
            r is Some ==> *r->0 == old(self).pending()[0] && final(self).pending() == old(
                self,
            ).pending().skip(1),
    {
        loop
            invariant
                self.func == old(self).func,
                self.wf(),
                self.pending() == old(self).pending(),
            decreases node_count_of(self.stack()),
        {
            let ghost before = self.stack();
            let ghost numbers = self.current_nodes.items();
            match self.current_nodes.pop() {
                None => {
                    return None;
                },
                Some(index) => {
                    assert(numbers[numbers.len() - 1] < self.nodes@.len());
                    let next = self.nodes[index];
                    let ghost rest = self.stack();
                    proof {
                        assert(before.drop_last() =~= rest);
                        assert(before.last() == *next);
                        assert(before.len() > 0);
                        assert(before.reverse() =~= seq![*next] + rest.reverse());
                        lemma_selected_of_concat(seq![*next], rest.reverse(), self.func);
                        lemma_selected_of_single(*next, self.func);
                        assert(selected_down(before, self.func) == selected(*next, self.func)
                            + selected_down(rest, self.func));
                        assert(node_count_of(before) == node_count_of(rest) + node_count(*next));
                    }
                    match next {
                        RTreeNode::Leaf(t) => {
                            if self.func.should_unpack_leaf(t) {
                                proof {
                                    assert(old(self).pending() =~= seq![*t] + self.pending());
                                    assert(self.pending() =~= old(self).pending().skip(1));
                                }
                                return Some(t);
                            }
                            proof {
                                assert(self.pending() =~= old(self).pending());
                            }
                        },
                        RTreeNode::Parent(data) => {
                            if self.func.should_unpack_parent(&data.envelope) {
                                extend_stack(
                                    &mut self.nodes,
                                    &mut self.current_nodes,
                                    data.children.as_slice(),
                                );
                                proof {
                                    let below = data.children@.reverse();
                                    assert(self.stack() =~= rest + below);
                                    assert(self.stack().reverse() =~= data.children@ + rest.reverse());
                                    lemma_selected_of_concat(data.children@, rest.reverse(), self.func);
                                    lemma_node_count_concat(rest, below);
                                    lemma_node_count_reverse(data.children@);
                                }
                            } else {
                                proof {
                                    assert(self.pending() =~= old(self).pending());
                                }
                            }
                        },
                    }
                },
            }
        }
    }
}

/// Adds `children` to `nodes`, and puts their numbers on `stack`, the last
/// child first: the first child comes off the stack first.
fn extend_stack<'a, T: RTreeObject>(
    nodes: &mut Vec<&'a RTreeNode<T>>,
    stack: &mut NodeStack,
    children: &'a [RTreeNode<T>],
)
    requires
        all_below(old(stack).items(), old(nodes)@.len()),
    ensures
        all_below(final(stack).items(), final(nodes)@.len()),
        pointed(final(nodes)@, final(stack).items()) == pointed(old(nodes)@, old(stack).items())
            + children@.reverse(),
{
    let mut k: usize = children.len();
    assert(pointed(nodes@, stack.items()) =~= pointed(old(nodes)@, old(stack).items())
        + children@.skip(k as int).reverse());
    while k > 0
        invariant
            k <= children@.len(),
            all_below(stack.items(), nodes@.len()),
            pointed(nodes@, stack.items()) == pointed(old(nodes)@, old(stack).items())
                + children@.skip(k as int).reverse(),
        decreases k,
    {
        let ghost met = nodes@;
        let ghost numbers = stack.items();
        let number = nodes.len();
        k = k - 1;
        nodes.push(&children[k]);
        stack.push(number);
        proof {
            assert forall|j: int| 0 <= j < stack.items().len() implies #[trigger] stack.items()[j]
                < nodes@.len() by {
                if j < numbers.len() {
                    assert(stack.items()[j] == numbers[j]);
                }
            }
            assert(pointed(nodes@, stack.items()) =~= pointed(met, numbers).push(
                children@[k as int],
            )) by {
                assert forall|j: int| 0 <= j < numbers.len() implies pointed(nodes@, stack.items())[j]
                    == pointed(met, numbers)[j] by {
                    assert(stack.items()[j] == numbers[j]);
                    assert(numbers[j] < met.len());
                }
            }
            assert(children@.skip(k as int).reverse() =~= children@.skip(k as int + 1).reverse().push(
                children@[k as int],
            ));
        }
    }
    assert(children@.skip(0) =~= children@);
}

/// A run of nodes has as many nodes in the opposite order.
pub proof fn lemma_node_count_reverse<T: RTreeObject>(nodes: Seq<RTreeNode<T>>)
    ensures
        node_count_of(nodes.reverse()) == node_count_of(nodes),
    decreases nodes.len(),
{
    if nodes.len() > 0 {
        let rest = nodes.drop_last();
        lemma_node_count_reverse(rest);
        assert(nodes.reverse() =~= seq![nodes.last()] + rest.reverse());
        lemma_node_count_concat(seq![nodes.last()], rest.reverse());
        lemma_node_count_single(nodes.last());
    } else {
        assert(nodes.reverse() =~= nodes);
    }
}



} // verus!
