//! The nodes of the tree and what holds of them.

use crate::aabb::{dims, hi, is_empty_envelope, lemma_same_bounds, lo, max_int, min_int, AABB};
use crate::envelope::Envelope;
use crate::num::RTreeNum;
use crate::object::RTreeObject;
use crate::params::Params;
use crate::point::Point;
use vstd::multiset::Multiset;
use vstd::prelude::*;

verus! {

/// The point type of the objects `T`.
pub type PointOf<T> = <<T as RTreeObject>::Envelope as Envelope>::Point;

/// The number type of the objects `T`.
pub type ScalarOf<T> = <<<T as RTreeObject>::Envelope as Envelope>::Point as Point>::Scalar;

/// A node of the tree.
pub enum RTreeNode<T: RTreeObject> {
    /// A leaf: one object of the tree.
    Leaf(T),
    /// A parent: several nodes and the envelope that encompasses them.
    Parent(ParentNode<T>),
}

/// An inner node: its children and the union of their envelopes.
pub struct ParentNode<T: RTreeObject> {
    pub children: Vec<RTreeNode<T>>,
    pub envelope: T::Envelope,
}

/// The smallest lower bound on axis `i` among the envelopes of `nodes`; the
/// largest number where there are none.
pub open spec fn union_lo<T: RTreeObject>(nodes: Seq<RTreeNode<T>>, i: int) -> int
    decreases nodes.len(),
{
    if nodes.len() == 0 {
        ScalarOf::<T>::upper_limit()
    } else {
        min_int(union_lo(nodes.drop_last(), i), lo(nodes.last().bounds(), i))
    }
}

/// The largest upper bound on axis `i` among the envelopes of `nodes`; the
/// smallest number where there are none.
pub open spec fn union_hi<T: RTreeObject>(nodes: Seq<RTreeNode<T>>, i: int) -> int
    decreases nodes.len(),
{
    if nodes.len() == 0 {
        ScalarOf::<T>::lower_limit()
    } else {
        max_int(union_hi(nodes.drop_last(), i), hi(nodes.last().bounds(), i))
    }
}

/// `b` is the union of the envelopes of `nodes`.
pub open spec fn is_union_of<T: RTreeObject>(b: AABB<PointOf<T>>, nodes: Seq<RTreeNode<T>>) -> bool {
    forall|i: int|
        #![trigger lo(b, i)]
        #![trigger hi(b, i)]
        0 <= i < dims::<PointOf<T>>() ==> lo(b, i) == union_lo(nodes, i) && hi(b, i) == union_hi(
            nodes,
            i,
        )
}

/// The objects below `nodes`, from the first node to the last.
pub open spec fn leaves_of<T: RTreeObject>(nodes: Seq<RTreeNode<T>>) -> Seq<T>
    decreases nodes,
{
    if nodes.len() == 0 {
        Seq::empty()
    } else {
        leaves_of(nodes.drop_last()) + nodes.last().leaves()
    }
}

/// The greatest height among `nodes`; zero where there are none.
pub open spec fn height_of<T: RTreeObject>(nodes: Seq<RTreeNode<T>>) -> nat
    decreases nodes,
{
    if nodes.len() == 0 {
        0
    } else {
        let rest = height_of(nodes.drop_last());
        let last = nodes.last().height();
        if rest > last {
            rest
        } else {
            last
        }
    }
}

impl<T: RTreeObject> RTreeNode<T> {
    /// The envelope: that of the object, or the one a parent keeps.
    pub open spec fn envelope_spec(&self) -> T::Envelope {
        match self {
            RTreeNode::Leaf(t) => t.envelope_spec(),
            RTreeNode::Parent(p) => p.envelope,
        }
    }

    /// The envelope as a box.
    pub open spec fn bounds(&self) -> AABB<PointOf<T>> {
        self.envelope_spec().bounds()
    }

    /// The objects below the node, in the order of the children.
    pub open spec fn leaves(&self) -> Seq<T>
        decreases self,
    {
        match self {
            RTreeNode::Leaf(t) => seq![*t],
            RTreeNode::Parent(p) => leaves_of(p.children@),
        }
    }

    /// The number of levels from the node down to its deepest leaf.
    pub open spec fn height(&self) -> nat
        decreases self,
    {
        match self {
            RTreeNode::Leaf(_) => 0,
            RTreeNode::Parent(p) => 1 + height_of(p.children@),
        }
    }

    /// Every parent at or below the node keeps the union of its children's
    /// envelopes.
    pub open spec fn coherent(&self) -> bool
        decreases self,
    {
        match self {
            RTreeNode::Leaf(_) => true,
            RTreeNode::Parent(p) => {
                &&& is_union_of(p.envelope.bounds(), p.children@)
                &&& forall|k: int|
                    0 <= k < p.children@.len() ==> (#[trigger] p.children@[k]).coherent()
            },
        }
    }

    /// The node is regular: every leaf below it lies exactly `depth` levels
    /// below it, and every parent at or below it has between `lo` and `hi`
    /// children.
    pub open spec fn regular(&self, depth: nat, lo: int, hi: int) -> bool
        decreases self,
    {
        match self {
            RTreeNode::Leaf(_) => depth == 0,
            RTreeNode::Parent(p) => {
                &&& depth >= 1
                &&& lo <= p.children@.len() <= hi
                &&& forall|k: int|
                    0 <= k < p.children@.len() ==> (#[trigger] p.children@[k]).regular(
                        (depth - 1) as nat,
                        lo,
                        hi,
                    )
            },
        }
    }

    /// The envelope of the node.
    pub fn envelope(&self) -> (r: T::Envelope)
        ensures
            r == self.envelope_spec(),
    {
        match self {
            RTreeNode::Leaf(t) => t.envelope(),
            RTreeNode::Parent(data) => data.envelope,
        }
    }

    /// Whether the node is a leaf.
    pub fn is_leaf(&self) -> (r: bool)
        ensures
            r == (self is Leaf),
    {
        match self {
            RTreeNode::Leaf(_) => true,
            RTreeNode::Parent(_) => false,
        }
    }
}

impl<T: RTreeObject> ParentNode<T> {
    /// The node as a node of the tree.
    pub open spec fn as_node(&self) -> RTreeNode<T> {
        RTreeNode::Parent(*self)
    }

    /// The objects below the node, in the order of the children.
    pub open spec fn leaves(&self) -> Seq<T> {
        leaves_of(self.children@)
    }

    /// The number of levels from the node down to its deepest leaf.
    pub open spec fn height(&self) -> nat {
        1 + height_of(self.children@)
    }

    /// Every parent at or below the node keeps the union of its children's
    /// envelopes.
    pub open spec fn coherent(&self) -> bool {
        self.as_node().coherent()
    }

    /// The node is regular as a root: every leaf below it lies exactly
    /// `depth` levels below it, it has at most `hi` children, and every parent
    /// below it has between `lo` and `hi`.
    pub open spec fn regular_root(&self, depth: nat, lo: int, hi: int) -> bool {
        &&& depth >= 1
        &&& self.children@.len() <= hi
        &&& all_regular(self.children@, (depth - 1) as nat, lo, hi)
    }

    /// The children of the node.
    pub fn children(&self) -> (r: &[RTreeNode<T>])
        ensures
            r@ == self.children@,
    {
        self.children.as_slice()
    }

    /// The smallest envelope that encompasses all children.
    pub fn envelope(&self) -> (r: T::Envelope)
        ensures
            r == self.envelope,
    {
        self.envelope
    }

    /// A node without children, with room for the children of a full node.
    pub fn new_root(params: &Params) -> (r: Self)
        requires
            params.wf(),
        ensures
            r.children@.len() == 0,
            is_empty_envelope(r.envelope.bounds()),
            r.coherent(),
    {
        let r = ParentNode {
            envelope: T::Envelope::new_empty(),
            children: Vec::with_capacity(params.max_size() + 1),
        };
        proof {
            lemma_limits_of::<T>();
        }
        r
    }

    /// The parent of `children`, with the union of their envelopes.
    pub fn new_parent(children: Vec<RTreeNode<T>>) -> (r: Self)
        ensures
            r.children@ == children@,
            is_union_of(r.envelope.bounds(), children@),
    {
        let envelope = envelope_for_children(children.as_slice());
        ParentNode { envelope, children }
    }
}

/// The objects below `nodes`, without their order.
pub open spec fn bag_of<T: RTreeObject>(nodes: Seq<RTreeNode<T>>) -> Multiset<T> {
    leaves_of(nodes).to_multiset()
}

impl<T: RTreeObject> RTreeNode<T> {
    /// The objects below the node, without their order.
    pub open spec fn bag(&self) -> Multiset<T> {
        self.leaves().to_multiset()
    }
}

impl<T: RTreeObject> ParentNode<T> {
    /// The objects below the node, without their order.
    pub open spec fn bag(&self) -> Multiset<T> {
        self.leaves().to_multiset()
    }
}

/// Every node of `nodes` is regular.
pub open spec fn all_regular<T: RTreeObject>(nodes: Seq<RTreeNode<T>>, depth: nat, lo: int, hi: int) -> bool {
    forall|k: int| 0 <= k < nodes.len() ==> (#[trigger] nodes[k]).regular(depth, lo, hi)
}

/// A rearrangement of regular nodes is a run of regular nodes.
pub proof fn lemma_regular_permutation<T: RTreeObject>(
    s1: Seq<RTreeNode<T>>,
    s2: Seq<RTreeNode<T>>,
    depth: nat,
    lo: int,
    hi: int,
)
    requires
        s1.to_multiset() == s2.to_multiset(),
        all_regular(s1, depth, lo, hi),
    ensures
        all_regular(s2, depth, lo, hi),
{
    assert forall|k: int| 0 <= k < s2.len() implies (#[trigger] s2[k]).regular(depth, lo, hi) by {
        vstd::seq_lib::to_multiset_contains(s1, s2[k]);
        vstd::seq_lib::to_multiset_contains(s2, s2[k]);
        assert(s2.contains(s2[k]));
        let j = choose|j: int| 0 <= j < s1.len() && s1[j] == s2[k];
        assert(s1[j].regular(depth, lo, hi));
    }
}

/// The parts of a run of regular nodes are runs of regular nodes.
pub proof fn lemma_regular_parts<T: RTreeObject>(
    a: Seq<RTreeNode<T>>,
    b: Seq<RTreeNode<T>>,
    depth: nat,
    lo: int,
    hi: int,
)
    requires
        all_regular(a + b, depth, lo, hi),
    ensures
        all_regular(a, depth, lo, hi),
        all_regular(b, depth, lo, hi),
{
    assert forall|k: int| 0 <= k < a.len() implies (#[trigger] a[k]).regular(depth, lo, hi) by {
        assert((a + b)[k] == a[k]);
    }
    assert forall|k: int| 0 <= k < b.len() implies (#[trigger] b[k]).regular(depth, lo, hi) by {
        assert((a + b)[a.len() + k] == b[k]);
    }
}

/// A regular node is as high as its leaves are deep.
pub proof fn lemma_regular_height<T: RTreeObject>(node: RTreeNode<T>, depth: nat, lo: int, hi: int)
    requires
        node.regular(depth, lo, hi),
        lo >= 1,
    ensures
        node.height() == depth,
    decreases node, 1nat,
{
    match node {
        RTreeNode::Leaf(_) => {},
        RTreeNode::Parent(p) => {
            lemma_regular_height_run(p.children@, (depth - 1) as nat, lo, hi);
        },
    }
}

/// Regular nodes, all as deep, are as high as they are deep.
pub proof fn lemma_regular_height_run<T: RTreeObject>(
    nodes: Seq<RTreeNode<T>>,
    depth: nat,
    lo: int,
    hi: int,
)
    requires
        all_regular(nodes, depth, lo, hi),
        lo >= 1,
        nodes.len() >= 1,
    ensures
        height_of(nodes) == depth,
    decreases nodes, 0nat,
{
    let rest = nodes.drop_last();
    assert(nodes.last() == nodes[nodes.len() - 1]);
    lemma_regular_height(nodes.last(), depth, lo, hi);
    if rest.len() >= 1 {
        assert forall|k: int| 0 <= k < rest.len() implies (#[trigger] rest[k]).regular(
            depth,
            lo,
            hi,
        ) by {
            assert(rest[k] == nodes[k]);
        }
        lemma_regular_height_run(rest, depth, lo, hi);
    } else {
        assert(height_of(rest) == 0);
    }
}

/// Every node of `nodes` is coherent.
pub open spec fn all_coherent<T: RTreeObject>(nodes: Seq<RTreeNode<T>>) -> bool {
    forall|k: int| 0 <= k < nodes.len() ==> (#[trigger] nodes[k]).coherent()
}

/// The leaves below two runs of nodes are those below the first run, then
/// those below the second.
pub proof fn lemma_leaves_concat<T: RTreeObject>(a: Seq<RTreeNode<T>>, b: Seq<RTreeNode<T>>)
    ensures
        leaves_of(a + b) == leaves_of(a) + leaves_of(b),
    decreases b.len(),
{
    if b.len() == 0 {
        assert(a + b =~= a);
        assert(leaves_of(a) + leaves_of(b) =~= leaves_of(a));
    } else {
        lemma_leaves_concat(a, b.drop_last());
        assert((a + b).drop_last() =~= a + b.drop_last());
        assert((a + b).last() == b.last());
        assert(leaves_of(a + b) =~= leaves_of(a) + leaves_of(b));
    }
}

/// The leaves below a single node.
pub proof fn lemma_leaves_single<T: RTreeObject>(x: RTreeNode<T>)
    ensures
        leaves_of(seq![x]) == x.leaves(),
{
    let one = seq![x];
    assert(one.drop_last() =~= Seq::<RTreeNode<T>>::empty());
    assert(leaves_of(one.drop_last()) =~= Seq::<T>::empty());
    assert(one.last() == x);
    assert(leaves_of(one) =~= Seq::<T>::empty() + x.leaves());
    assert(leaves_of(one) =~= x.leaves());
}

/// The objects below two runs of nodes are those below either.
pub proof fn lemma_bag_concat<T: RTreeObject>(a: Seq<RTreeNode<T>>, b: Seq<RTreeNode<T>>)
    ensures
        bag_of(a + b) == bag_of(a).add(bag_of(b)),
{
    lemma_leaves_concat(a, b);
    vstd::seq_lib::lemma_multiset_commutative(leaves_of(a), leaves_of(b));
}

/// Adding a node adds the objects below it.
pub proof fn lemma_bag_push<T: RTreeObject>(s: Seq<RTreeNode<T>>, x: RTreeNode<T>)
    ensures
        bag_of(s.push(x)) == bag_of(s).add(x.bag()),
{
    assert(s.push(x) =~= s + seq![x]);
    lemma_bag_concat(s, seq![x]);
    lemma_leaves_single(x);
}

/// No objects lie below no nodes.
pub proof fn lemma_bag_empty<T: RTreeObject>()
    ensures
        bag_of(Seq::<RTreeNode<T>>::empty()) == Multiset::<T>::empty(),
{
    let none = Seq::<RTreeNode<T>>::empty();
    assert(leaves_of(none) =~= Seq::<T>::empty());
    vstd::seq_lib::to_multiset_len(leaves_of(none));
    assert(leaves_of(none).to_multiset().len() == 0);
    assert(leaves_of(none).to_multiset() =~= Multiset::<T>::empty()) by {
        broadcast use vstd::multiset::group_multiset_axioms;
    }
}

/// Below a leaf lies its object.
pub proof fn lemma_leaf_bag<T: RTreeObject>(t: T)
    ensures
        RTreeNode::Leaf(t).bag() == Multiset::<T>::empty().insert(t),
{
    let none = Seq::<T>::empty();
    vstd::seq_lib::to_multiset_len(none);
    assert(none.to_multiset() =~= Multiset::<T>::empty()) by {
        broadcast use vstd::multiset::group_multiset_axioms;
    }
    vstd::seq_lib::to_multiset_build(none, t);
    assert(RTreeNode::Leaf(t).leaves() =~= none.push(t));
}

/// The objects below a run of nodes are those below one of them and those
/// below the others.
pub proof fn lemma_bag_remove<T: RTreeObject>(s: Seq<RTreeNode<T>>, j: int)
    requires
        0 <= j < s.len(),
    ensures
        bag_of(s) == bag_of(s.remove(j)).add(s[j].bag()),
{
    let a = s.subrange(0, j);
    let b = s.subrange(j + 1, s.len() as int);
    assert(s =~= (a + seq![s[j]]) + b);
    assert(s.remove(j) =~= a + b);
    lemma_bag_concat(a + seq![s[j]], b);
    lemma_bag_concat(a, seq![s[j]]);
    lemma_bag_concat(a, b);
    lemma_leaves_single(s[j]);
    assert(bag_of(s) =~= bag_of(s.remove(j)).add(s[j].bag()));
}

/// Replacing a node replaces the objects below it.
pub proof fn lemma_bag_update<T: RTreeObject>(s: Seq<RTreeNode<T>>, j: int, x: RTreeNode<T>)
    requires
        0 <= j < s.len(),
    ensures
        bag_of(s.update(j, x)).add(s[j].bag()) == bag_of(s).add(x.bag()),
{
    lemma_bag_remove(s, j);
    lemma_bag_remove(s.update(j, x), j);
    assert(s.update(j, x).remove(j) =~= s.remove(j));
    assert(bag_of(s.update(j, x)).add(s[j].bag()) =~= bag_of(s).add(x.bag()));
}

/// Replacing a node by one with the same leaves, height and envelope changes
/// none of these for the run.
pub proof fn lemma_update_same<T: RTreeObject>(s: Seq<RTreeNode<T>>, j: int, x: RTreeNode<T>)
    requires
        0 <= j < s.len(),
        x.leaves() == s[j].leaves(),
        x.height() == s[j].height(),
        x.envelope_spec() == s[j].envelope_spec(),
    ensures
        leaves_of(s.update(j, x)) == leaves_of(s),
        height_of(s.update(j, x)) == height_of(s),
        forall|i: int| union_lo(s.update(j, x), i) == union_lo(s, i),
        forall|i: int| union_hi(s.update(j, x), i) == union_hi(s, i),
    decreases s.len(),
{
    let after = s.update(j, x);
    if j == s.len() - 1 {
        assert(after.drop_last() =~= s.drop_last());
        assert(after.last() == x);
    } else {
        lemma_update_same(s.drop_last(), j, x);
        assert(after.drop_last() =~= s.drop_last().update(j, x));
        assert(after.last() == s.last());
    }
    assert forall|i: int| union_lo(after, i) == union_lo(s, i) by {
        if j == s.len() - 1 {
        } else {
            assert(union_lo(after.drop_last(), i) == union_lo(s.drop_last(), i));
        }
    }
    assert forall|i: int| union_hi(after, i) == union_hi(s, i) by {
        if j == s.len() - 1 {
        } else {
            assert(union_hi(after.drop_last(), i) == union_hi(s.drop_last(), i));
        }
    }
}

/// Taking a node out by putting the last node in its place takes out the
/// objects below it.
pub proof fn lemma_bag_swap_remove<T: RTreeObject>(s: Seq<RTreeNode<T>>, j: int)
    requires
        0 <= j < s.len(),
    ensures
        bag_of(s.update(j, s.last()).drop_last()).add(s[j].bag()) == bag_of(s),
        all_coherent(s) ==> all_coherent(s.update(j, s.last()).drop_last()),
{
    let last = s.len() - 1;
    let after = s.update(j, s.last()).drop_last();
    if j == last {
        assert(after =~= s.remove(j));
        lemma_bag_remove(s, j);
    } else {
        let swapped = s.update(j, s[last]);
        assert(after =~= swapped.remove(last));
        lemma_bag_remove(swapped, last);
        lemma_bag_update(s, j, s[last]);
        assert(swapped[last] == s[last]);
        assert forall|v: T| bag_of(after).add(s[j].bag()).count(v) == bag_of(s).count(v) by {
            vstd::multiset::axiom_multiset_add(bag_of(after), s[j].bag(), v);
            vstd::multiset::axiom_multiset_add(bag_of(after), s[last].bag(), v);
            vstd::multiset::axiom_multiset_add(bag_of(swapped), s[j].bag(), v);
            vstd::multiset::axiom_multiset_add(bag_of(s), s[last].bag(), v);
        }
        assert(bag_of(after).add(s[j].bag()) =~= bag_of(s));
    }
    if all_coherent(s) {
        assert forall|k: int| 0 <= k < after.len() implies (#[trigger] after[k]).coherent() by {
            if k == j {
                assert(after[k] == s[last]);
            } else {
                assert(after[k] == s[k]);
            }
        }
    }
}

/// Where one run of nodes holds, besides `x`, what another holds besides
/// `c`, and `c` is `x` and the object `t`, the other run holds the first and
/// `t`.
pub proof fn lemma_bag_shrink<V>(a: Multiset<V>, c: Multiset<V>, b: Multiset<V>, x: Multiset<V>, t: V)
    requires
        a.add(c) == b.add(x),
        x.insert(t) == c,
    ensures
        a.insert(t) == b,
{
    assert forall|v: V| a.insert(t).count(v) == b.count(v) by {
        vstd::multiset::axiom_multiset_add(a, c, v);
        vstd::multiset::axiom_multiset_add(b, x, v);
        vstd::multiset::axiom_multiset_add(x, Multiset::singleton(t), v);
        vstd::multiset::axiom_multiset_add(a, Multiset::singleton(t), v);
    }
    assert(a.insert(t) =~= b);
}

/// The objects below a run of nodes do not depend on the order of the nodes.
pub proof fn lemma_bag_permutation<T: RTreeObject>(s1: Seq<RTreeNode<T>>, s2: Seq<RTreeNode<T>>)
    requires
        s1.to_multiset() == s2.to_multiset(),
    ensures
        bag_of(s1) == bag_of(s2),
    decreases s1.len(),
{
    vstd::seq_lib::to_multiset_len(s1);
    vstd::seq_lib::to_multiset_len(s2);
    if s1.len() == 0 {
        assert(s1 =~= s2);
    } else {
        let x = s1.last();
        vstd::seq_lib::to_multiset_contains(s1, x);
        vstd::seq_lib::to_multiset_contains(s2, x);
        assert(s1.contains(x));
        let j = choose|j: int| 0 <= j < s2.len() && s2[j] == x;
        let last = s1.len() - 1;
        vstd::seq_lib::to_multiset_remove(s1, last);
        vstd::seq_lib::to_multiset_remove(s2, j);
        assert(s1.remove(last) =~= s1.drop_last());
        lemma_bag_permutation(s1.drop_last(), s2.remove(j));
        lemma_bag_remove(s1, last);
        lemma_bag_remove(s2, j);
    }
}

/// What holds of every node of a run holds of every node of a rearrangement.
pub proof fn lemma_coherent_permutation<T: RTreeObject>(s1: Seq<RTreeNode<T>>, s2: Seq<RTreeNode<T>>)
    requires
        s1.to_multiset() == s2.to_multiset(),
        all_coherent(s1),
    ensures
        all_coherent(s2),
{
    assert forall|k: int| 0 <= k < s2.len() implies (#[trigger] s2[k]).coherent() by {
        vstd::seq_lib::to_multiset_contains(s1, s2[k]);
        vstd::seq_lib::to_multiset_contains(s2, s2[k]);
        assert(s2.contains(s2[k]));
        let j = choose|j: int| 0 <= j < s1.len() && s1[j] == s2[k];
        assert(s1[j].coherent());
    }
}

/// A rearrangement has as many nodes.
pub proof fn lemma_permutation_len<A>(s1: Seq<A>, s2: Seq<A>)
    requires
        s1.to_multiset() == s2.to_multiset(),
    ensures
        s1.len() == s2.len(),
{
    vstd::seq_lib::to_multiset_len(s1);
    vstd::seq_lib::to_multiset_len(s2);
}

/// The bounds of a box are numbers of the coordinate type.
pub proof fn lemma_bounds_in_range<P: Point>(b: AABB<P>, i: int)
    ensures
        P::Scalar::lower_limit() <= lo(b, i) <= P::Scalar::upper_limit(),
        P::Scalar::lower_limit() <= hi(b, i) <= P::Scalar::upper_limit(),
{
    P::Scalar::lemma_limits(b.lower_spec().nth_spec(i));
    P::Scalar::lemma_limits(b.upper_spec().nth_spec(i));
}

/// A node with these children and their union as envelope is coherent where
/// the children are.
pub proof fn lemma_parent_coherent<T: RTreeObject>(p: ParentNode<T>)
    requires
        is_union_of(p.envelope.bounds(), p.children@),
        all_coherent(p.children@),
    ensures
        p.coherent(),
{
}

/// The children of a coherent node are coherent, and its envelope is their
/// union.
pub proof fn lemma_coherent_parent<T: RTreeObject>(p: ParentNode<T>)
    requires
        p.coherent(),
    ensures
        is_union_of(p.envelope.bounds(), p.children@),
        all_coherent(p.children@),
{
}


/// Every node is lower than the greatest height among the nodes it stands with.
pub proof fn lemma_child_height<T: RTreeObject>(nodes: Seq<RTreeNode<T>>, k: int)
    requires
        0 <= k < nodes.len(),
    ensures
        nodes[k].height() <= height_of(nodes),
    decreases nodes.len(),
{
    if k < nodes.len() - 1 {
        lemma_child_height(nodes.drop_last(), k);
    }
}

/// The limits of the number type of `T` are those of a number type.
pub proof fn lemma_limits_of<T: RTreeObject>()
    ensures
        ScalarOf::<T>::lower_limit() == -ScalarOf::<T>::upper_limit() - 1,
        127 <= ScalarOf::<T>::upper_limit() <= i64::MAX,
{
    let witness: ScalarOf<T> = arbitrary();
    ScalarOf::<T>::lemma_limits(witness);
}

/// The union of the envelopes of `children`; the empty envelope where there
/// are none.
pub fn envelope_for_children<T: RTreeObject>(children: &[RTreeNode<T>]) -> (r: T::Envelope)
    ensures
        is_union_of(r.bounds(), children@),
{
    let mut result = T::Envelope::new_empty();
    let mut k: usize = 0;
    while k < children.len()
        invariant
            k <= children.len(),
            is_union_of(result.bounds(), children@.take(k as int)),
        decreases children.len() - k,
    {
        let ghost before = result;
        result.merge(&children[k].envelope());
        proof {
            let s = children@.take(k as int + 1);
            assert(s.drop_last() =~= children@.take(k as int));
            assert(s.last() == children@[k as int]);
            assert forall|i: int|
                #![trigger lo(result.bounds(), i)]
                #![trigger hi(result.bounds(), i)]
                0 <= i < dims::<PointOf<T>>() implies lo(result.bounds(), i) == union_lo(s, i)
                && hi(result.bounds(), i) == union_hi(s, i) by {
                assert(lo(before.bounds(), i) == union_lo(children@.take(k as int), i));
                assert(hi(before.bounds(), i) == union_hi(children@.take(k as int), i));
            }
        }
        k = k + 1;
    }
    assert(children@.take(k as int) =~= children@);
    result
}


/// The most children that a node may have where the check asks for `max` or
/// does not ask.
pub open spec fn size_limit(params: Params, check_max_size: bool) -> int {
    if check_max_size {
        params.max_size_spec() as int
    } else {
        usize::MAX as int
    }
}

/// The nodes below `node` are as they should be: every parent keeps the union
/// of its children's envelopes, all leaves are `depth` levels below `node`,
/// and every parent below `node` has the children that the parameters ask
/// for.
pub open spec fn sane<T: RTreeObject>(
    node: ParentNode<T>,
    params: Params,
    check_max_size: bool,
    depth: nat,
) -> bool {
    &&& node.coherent()
    &&& node.children@.len() >= 1
    &&& node.regular_root(
        depth,
        params.min_size_spec() as int,
        size_limit(params, check_max_size),
    )
}

impl<T: RTreeObject> ParentNode<T> {
    /// Checks the nodes below this one, and returns the depth of the leaves
    /// where they are as they should be: zero for a node without children.
    pub fn sanity_check(&self, params: &Params, check_max_size: bool) -> (r: Option<usize>)
        requires
            params.wf(),
        ensures
            self.children@.len() == 0 ==> r == Some(0usize),
            self.children@.len() > 0 && r is Some ==> sane(*self, *params, check_max_size, r->0 as nat),
            self.children@.len() > 0 && r is None ==> forall|depth: nat|
                depth <= usize::MAX ==> !#[trigger] sane(*self, *params, check_max_size, depth),
    {
        if self.children.len() == 0 {
            Some(0)
        } else {
            self.sanity_check_inner(params, check_max_size)
        }
    }

    /// Checks the nodes below this one, which has children.
    fn sanity_check_inner(&self, params: &Params, check_max_size: bool) -> (r: Option<usize>)
        requires
            params.wf(),
            self.children@.len() > 0,
        ensures
            r is Some ==> sane(*self, *params, check_max_size, r->0 as nat),
            r is None ==> forall|depth: nat|
                depth <= usize::MAX ==> !#[trigger] sane(*self, *params, check_max_size, depth),
        decreases self.height(),
    {
        let ghost least = params.min_size_spec() as int;
        let ghost most = size_limit(*params, check_max_size);
        let len = self.children.len();
        if check_max_size && len > params.max_size() {
            return None;
        }
        let mut envelope = T::Envelope::new_empty();
        let mut below: usize = 0;
        let mut k: usize = 0;
        while k < self.children.len()
            invariant
                k <= self.children@.len(),
                params.wf(),
                self.children@.len() > 0,
                self.children@.len() <= most,
                least == params.min_size_spec() as int,
                most == size_limit(*params, check_max_size),
                is_union_of(envelope.bounds(), self.children@.take(k as int)),
                all_coherent(self.children@.take(k as int)),
                all_regular(self.children@.take(k as int), below as nat, least, most),
            decreases self.children@.len() - k,
        {
            let ghost done = self.children@.take(k as int);
            let ghost next = self.children@.take(k as int + 1);
            let ghost before = envelope;
            proof {
                assert(next.drop_last() =~= done);
                assert(next.last() == self.children@[k as int]);
                lemma_child_height(self.children@, k as int);
            }
            let child_depth = match &self.children[k] {
                RTreeNode::Leaf(t) => {
                    envelope.merge(&t.envelope());
                    0
                },
                RTreeNode::Parent(data) => {
                    if data.children.len() < params.min_size() {
                        proof {
                            assert forall|depth: nat| depth <= usize::MAX implies !#[trigger] sane(
                                *self,
                                *params,
                                check_max_size,
                                depth,
                            ) by {
                                if sane(*self, *params, check_max_size, depth) {
                                    assert(self.children@[k as int].regular(
                                        (depth - 1) as nat,
                                        least,
                                        most,
                                    ));
                                }
                            }
                        }
                        return None;
                    }
                    match data.sanity_check_inner(params, check_max_size) {
                        Some(depth) => {
                            envelope.merge(&data.envelope);
                            depth
                        },
                        None => {
                            proof {
                                assert forall|depth: nat| depth <= usize::MAX implies !#[trigger] sane(
                                    *self,
                                    *params,
                                    check_max_size,
                                    depth,
                                ) by {
                                    if sane(*self, *params, check_max_size, depth) {
                                        assert(self.children@[k as int].regular(
                                            (depth - 1) as nat,
                                            least,
                                            most,
                                        ));
                                        assert(self.children@[k as int].coherent());
                                        assert(sane(
                                            *data,
                                            *params,
                                            check_max_size,
                                            (depth - 1) as nat,
                                        ));
                                    }
                                }
                            }
                            return None;
                        },
                    }
                },
            };
            proof {
                assert forall|i: int|
                    #![trigger crate::aabb::lo(envelope.bounds(), i)]
                    #![trigger crate::aabb::hi(envelope.bounds(), i)]
                    0 <= i < dims::<PointOf<T>>() implies crate::aabb::lo(envelope.bounds(), i)
                    == union_lo(next, i) && crate::aabb::hi(envelope.bounds(), i) == union_hi(
                    next,
                    i,
                ) by {
                    assert(crate::aabb::lo(before.bounds(), i) == union_lo(done, i));
                    assert(crate::aabb::hi(before.bounds(), i) == union_hi(done, i));
                }
                assert(self.children@[k as int].regular(child_depth as nat, least, most));
                assert(self.children@[k as int].coherent());
            }
            if k > 0 && child_depth != below {
                proof {
                    assert forall|depth: nat| depth <= usize::MAX implies !#[trigger] sane(
                        *self,
                        *params,
                        check_max_size,
                        depth,
                    ) by {
                        if sane(*self, *params, check_max_size, depth) {
                            assert(self.children@[k as int].regular((depth - 1) as nat, least, most));
                            assert(self.children@[0].regular((depth - 1) as nat, least, most));
                            assert(done[0] == self.children@[0]);
                            assert(done[0].regular(below as nat, least, most));
                            lemma_regular_height(self.children@[k as int], (depth - 1) as nat, least, most);
                            lemma_regular_height(self.children@[k as int], child_depth as nat, least, most);
                            lemma_regular_height(self.children@[0], (depth - 1) as nat, least, most);
                            lemma_regular_height(self.children@[0], below as nat, least, most);
                        }
                    }
                }
                return None;
            }
            below = child_depth;
            proof {
                assert forall|j: int| 0 <= j < next.len() implies (#[trigger] next[j]).regular(
                    below as nat,
                    least,
                    most,
                ) && next[j].coherent() by {
                    if j < k {
                        assert(next[j] == done[j]);
                    }
                }
            }
            k = k + 1;
        }
        proof {
            assert(self.children@.take(k as int) =~= self.children@);
        }
        let same = envelope.contains_envelope(&self.envelope) && self.envelope.contains_envelope(
            &envelope,
        );
        if !same || below == usize::MAX {
            proof {
                assert forall|depth: nat| depth <= usize::MAX implies !#[trigger] sane(
                    *self,
                    *params,
                    check_max_size,
                    depth,
                ) by {
                    if sane(*self, *params, check_max_size, depth) {
                        assert(self.children@[0].regular((depth - 1) as nat, least, most));
                        lemma_regular_height(self.children@[0], (depth - 1) as nat, least, most);
                        lemma_regular_height(self.children@[0], below as nat, least, most);
                        let a = envelope.bounds();
                        let b = self.envelope.bounds();
                        assert forall|i: int|
                            #![trigger crate::aabb::lo(a, i)]
                            #![trigger crate::aabb::hi(a, i)]
                            #![trigger crate::aabb::lo(b, i)]
                            #![trigger crate::aabb::hi(b, i)]
                            0 <= i < dims::<PointOf<T>>() implies crate::aabb::lo(a, i)
                            == crate::aabb::lo(b, i) && crate::aabb::hi(a, i) == crate::aabb::hi(b, i) by {
                            assert(crate::aabb::lo(a, i) == union_lo(self.children@, i));
                            assert(crate::aabb::lo(b, i) == union_lo(self.children@, i));
                        }
                    }
                }
            }
            return None;
        }
        proof {
            let a = envelope.bounds();
            let b = self.envelope.bounds();
            assert(crate::aabb::same_bounds(a, b)) by {
                assert forall|i: int|
                    #![trigger crate::aabb::lo(a, i)]
                    #![trigger crate::aabb::hi(a, i)]
                    0 <= i < dims::<PointOf<T>>() implies crate::aabb::lo(a, i) == crate::aabb::lo(
                    b,
                    i,
                ) && crate::aabb::hi(a, i) == crate::aabb::hi(b, i) by {
                    assert(crate::aabb::lo(a, i) <= crate::aabb::lo(b, i));
                    assert(crate::aabb::lo(b, i) <= crate::aabb::lo(a, i));
                }
            }
            lemma_same_bounds(a, b);
            lemma_parent_coherent(*self);
        }
        Some(below + 1)
    }
}

impl<T: RTreeObject> ParentNode<T> {
    /// The number of objects below this node, where every parent at and below
    /// it keeps the union of its children's envelopes; `None` where one does
    /// not, or where the objects cannot be counted.
    pub fn coherent_size(&self) -> (r: Option<usize>)
        ensures
            r is Some ==> self.coherent() && r->0 == self.leaves().len(),
            r is None ==> !self.coherent() || self.leaves().len() > usize::MAX,
        decreases self.height(),
    {
        let mut envelope = T::Envelope::new_empty();
        let mut count: usize = 0;
        let mut k: usize = 0;
        while k < self.children.len()
            invariant
                k <= self.children@.len(),
                is_union_of(envelope.bounds(), self.children@.take(k as int)),
                all_coherent(self.children@.take(k as int)),
                count == leaves_of(self.children@.take(k as int)).len(),
            decreases self.children@.len() - k,
        {
            let ghost done = self.children@.take(k as int);
            let ghost next = self.children@.take(k as int + 1);
            let ghost before = envelope;
            proof {
                assert(next.drop_last() =~= done);
                assert(next.last() == self.children@[k as int]);
                lemma_child_height(self.children@, k as int);
                assert(self.children@ =~= next + self.children@.skip(k as int + 1));
                lemma_leaves_concat(next, self.children@.skip(k as int + 1));
                assert(leaves_of(next) == leaves_of(done) + self.children@[k as int].leaves());
                assert(self.leaves() == leaves_of(self.children@));
                assert(self.leaves().len() >= leaves_of(next).len());
            }
            let below = match &self.children[k] {
                RTreeNode::Leaf(t) => {
                    envelope.merge(&t.envelope());
                    Some(1usize)
                },
                RTreeNode::Parent(data) => {
                    let below = data.coherent_size();
                    envelope.merge(&data.envelope);
                    below
                },
            };
            let sum = match below {
                Some(n) => count.checked_add(n),
                None => None,
            };
            match sum {
                Some(n) => {
                    count = n;
                },
                None => {
                    proof {
                        if self.coherent() {
                            assert(self.children@[k as int].coherent());
                            if below is Some {
                                assert(count + below->0 > usize::MAX);
                            } else {
                                assert(self.children@[k as int].leaves().len() > usize::MAX);
                            }
                            assert(leaves_of(next).len() > usize::MAX);
                        }
                    }
                    return None;
                },
            }
            proof {
                assert forall|i: int|
                    #![trigger crate::aabb::lo(envelope.bounds(), i)]
                    #![trigger crate::aabb::hi(envelope.bounds(), i)]
                    0 <= i < dims::<PointOf<T>>() implies crate::aabb::lo(envelope.bounds(), i)
                    == union_lo(next, i) && crate::aabb::hi(envelope.bounds(), i) == union_hi(
                    next,
                    i,
                ) by {
                    assert(crate::aabb::lo(before.bounds(), i) == union_lo(done, i));
                    assert(crate::aabb::hi(before.bounds(), i) == union_hi(done, i));
                }
                assert forall|j: int| 0 <= j < next.len() implies (#[trigger] next[j]).coherent() by {
                    if j < k {
                        assert(next[j] == done[j]);
                    }
                }
            }
            k = k + 1;
        }
        proof {
            assert(self.children@.take(k as int) =~= self.children@);
        }
        let same = envelope.contains_envelope(&self.envelope) && self.envelope.contains_envelope(
            &envelope,
        );
        if !same {
            proof {
                if self.coherent() {
                    let a = envelope.bounds();
                    let b = self.envelope.bounds();
                    assert forall|i: int|
                        #![trigger crate::aabb::lo(a, i)]
                        #![trigger crate::aabb::hi(a, i)]
                        #![trigger crate::aabb::lo(b, i)]
                        #![trigger crate::aabb::hi(b, i)]
                        0 <= i < dims::<PointOf<T>>() implies crate::aabb::lo(a, i) == crate::aabb::lo(
                        b,
                        i,
                    ) && crate::aabb::hi(a, i) == crate::aabb::hi(b, i) by {
                        assert(crate::aabb::lo(a, i) == union_lo(self.children@, i));
                        assert(crate::aabb::lo(b, i) == union_lo(self.children@, i));
                    }
                }
            }
            return None;
        }
        proof {
            let a = envelope.bounds();
            let b = self.envelope.bounds();
            assert(crate::aabb::same_bounds(a, b)) by {
                assert forall|i: int|
                    #![trigger crate::aabb::lo(a, i)]
                    #![trigger crate::aabb::hi(a, i)]
                    0 <= i < dims::<PointOf<T>>() implies crate::aabb::lo(a, i) == crate::aabb::lo(
                    b,
                    i,
                ) && crate::aabb::hi(a, i) == crate::aabb::hi(b, i) by {
                    assert(crate::aabb::lo(a, i) <= crate::aabb::lo(b, i));
                    assert(crate::aabb::lo(b, i) <= crate::aabb::lo(a, i));
                }
            }
            lemma_same_bounds(a, b);
            lemma_parent_coherent(*self);
        }
        Some(count)
    }
}

/// The number of nodes at and below `node`.
pub open spec fn node_count<T: RTreeObject>(node: RTreeNode<T>) -> nat
    decreases node,
{
    match node {
        RTreeNode::Leaf(_) => 1,
        RTreeNode::Parent(p) => 1 + node_count_of(p.children@),
    }
}

/// The number of nodes at and below `nodes`.
pub open spec fn node_count_of<T: RTreeObject>(nodes: Seq<RTreeNode<T>>) -> nat
    decreases nodes,
{
    if nodes.len() == 0 {
        0
    } else {
        node_count_of(nodes.drop_last()) + node_count(nodes.last())
    }
}

/// The nodes of two runs are the nodes of the first and the nodes of the
/// second.
pub proof fn lemma_node_count_concat<T: RTreeObject>(a: Seq<RTreeNode<T>>, b: Seq<RTreeNode<T>>)
    ensures
        node_count_of(a + b) == node_count_of(a) + node_count_of(b),
    decreases b.len(),
{
    if b.len() == 0 {
        assert(a + b =~= a);
    } else {
        lemma_node_count_concat(a, b.drop_last());
        assert((a + b).drop_last() =~= a + b.drop_last());
        assert((a + b).last() == b.last());
    }
}

/// A run of one node has the nodes of that node.
pub proof fn lemma_node_count_single<T: RTreeObject>(x: RTreeNode<T>)
    ensures
        node_count_of(seq![x]) == node_count(x),
{
    let one = seq![x];
    assert(one.drop_last() =~= Seq::<RTreeNode<T>>::empty());
    assert(node_count_of(one.drop_last()) == 0);
    assert(one.last() == x);
}

/// The nodes of a run are those of one of its nodes and those of the others.
pub proof fn lemma_node_count_remove<T: RTreeObject>(s: Seq<RTreeNode<T>>, j: int)
    requires
        0 <= j < s.len(),
    ensures
        node_count_of(s) == node_count_of(s.remove(j)) + node_count(s[j]),
{
    let a = s.subrange(0, j);
    let b = s.subrange(j + 1, s.len() as int);
    let one = seq![s[j]];
    assert(s =~= (a + one) + b);
    assert(s.remove(j) =~= a + b);
    lemma_node_count_concat(a + one, b);
    lemma_node_count_concat(a, one);
    lemma_node_count_concat(a, b);
    assert(one.drop_last() =~= Seq::<RTreeNode<T>>::empty());
    assert(node_count_of(one.drop_last()) == 0);
    assert(one.last() == s[j]);
    assert(node_count_of(one) == node_count(s[j]));
}

} // verus!
