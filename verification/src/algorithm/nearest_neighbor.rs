//! Nearest neighbor searches: best first, by a priority queue of nodes.

use crate::aabb::{
    dims, envelope_contains, envelope_distance_2, envelope_distance_2_upto, hi, is_valid, lo,
    nearest_coord, AABB,
};
use crate::point::PointExt;
use crate::algorithm::iterators::{lemma_leaves_within, values};
use crate::algorithm::small_heap::{entry_le, Entry, SmallHeap};
use crate::envelope::Envelope;
use crate::node::{
    all_coherent,
    bag_of,
    leaves_of,
    lemma_bag_concat,
    lemma_bag_remove,
    lemma_coherent_parent,
    lemma_leaf_bag,
    lemma_node_count_concat,
    lemma_node_count_remove,
    lemma_node_count_single,
    node_count_of,
    ParentNode,
    PointOf,
    RTreeNode,
    ScalarOf,
};
use crate::num::{saturate, RTreeNum};
use crate::object::{PointDistance, RTreeObject};
use crate::point::{coord, lemma_square_monotone, Point};
use vstd::multiset::Multiset;
use vstd::prelude::*;

verus! {

/// The key of a node in the queue: the distance of the object for a leaf, the
/// distance of the envelope for a parent.
pub open spec fn node_key<T: PointDistance>(node: RTreeNode<T>, query_point: PointOf<T>) -> int {
    match node {
        RTreeNode::Leaf(t) => t.distance_2_spec(query_point),
        RTreeNode::Parent(p) => saturate::<ScalarOf<T>>(
            envelope_distance_2(p.envelope.bounds(), query_point),
        ),
    }
}

/// On every axis a point is no nearer to a box than to a box around it.
pub proof fn lemma_distance_antitone<P: Point>(e: AABB<P>, inner: AABB<P>, p: P, n: int)
    requires
        n <= dims::<P>(),
        is_valid(inner),
        envelope_contains(e, inner),
    ensures
        0 <= envelope_distance_2_upto(e, p, n) <= envelope_distance_2_upto(inner, p, n),
    decreases n,
{
    if n > 0 {
        lemma_distance_antitone(e, inner, p, n - 1);
        let i = n - 1;
        assert(lo(inner, i) <= hi(inner, i));
        assert(lo(e, i) <= lo(inner, i));
        assert(hi(inner, i) <= hi(e, i));
        let c = coord(p, i);
        let de = nearest_coord(e, p, i) - c;
        let di = nearest_coord(inner, p, i) - c;
        lemma_square_monotone(de, di);
        crate::point::lemma_square_nonnegative(de);
    }
}

/// An object below a coherent node is no nearer to a point than the key of
/// the node.
pub proof fn lemma_key_is_lower_bound<T: PointDistance>(
    node: RTreeNode<T>,
    query_point: PointOf<T>,
    k: int,
)
    requires
        node.coherent(),
        0 <= k < node.leaves().len(),
    ensures
        node_key(node, query_point) <= node.leaves()[k].distance_2_spec(query_point),
{
    match node {
        RTreeNode::Leaf(t) => {
            assert(node.leaves()[k] == t);
        },
        RTreeNode::Parent(p) => {
            let t = node.leaves()[k];
            lemma_leaves_within(node, k);
            crate::node::lemma_limits_of::<T>();
            t.lemma_envelope_valid();
            lemma_distance_antitone(
                p.envelope.bounds(),
                t.envelope_spec().bounds(),
                query_point,
                dims::<PointOf<T>>(),
            );
            t.lemma_envelope_is_nearer(query_point);
        },
    }
}

/// An object below a run of nodes lies below one of them.
pub proof fn lemma_bag_member<T: RTreeObject>(nodes: Seq<RTreeNode<T>>, t: T) -> (r: (int, int))
    requires
        bag_of(nodes).count(t) > 0,
    ensures
        0 <= r.0 < nodes.len(),
        0 <= r.1 < nodes[r.0].leaves().len(),
        nodes[r.0].leaves()[r.1] == t,
    decreases nodes.len(),
{
    vstd::seq_lib::to_multiset_contains(leaves_of(nodes), t);
    if nodes.len() == 0 {
        assert(leaves_of(nodes) =~= Seq::<T>::empty());
        (0, 0)
    } else {
        let rest = nodes.drop_last();
        let k = choose|k: int| 0 <= k < leaves_of(nodes).len() && leaves_of(nodes)[k] == t;
        if k < leaves_of(rest).len() {
            assert(leaves_of(rest)[k] == t);
            vstd::seq_lib::to_multiset_contains(leaves_of(rest), t);
            assert(leaves_of(rest).contains(t));
            let r = lemma_bag_member(rest, t);
            assert(rest[r.0] == nodes[r.0]);
            r
        } else {
            (nodes.len() - 1, k - leaves_of(rest).len())
        }
    }
}

/// A node that waits in the queue, with its key.
pub struct Waiting<'a, T: PointDistance> {
    pub node: &'a RTreeNode<T>,
    pub distance: ScalarOf<T>,
}

/// Yields the objects of a tree nearest first, each with its squared
/// distance to the query point.
///
/// The search keeps the nodes it has met and not opened in a queue, by their
/// distance. [`remaining`](Self::remaining) are the objects it has not
/// yielded.
pub struct NearestNeighborDistance2Iterator<'a, T: PointDistance> {
    nodes: SmallHeap,
    arena: Vec<Waiting<'a, T>>,
    query_point: PointOf<T>,
    live: Ghost<Seq<int>>,
}

impl<'a, T: PointDistance> NearestNeighborDistance2Iterator<'a, T> {
    /// The point that the search is about.
    pub closed spec fn query_point_spec(&self) -> PointOf<T> {
        self.query_point
    }

    /// The nodes in the queue.
    pub closed spec fn waiting(&self) -> Seq<RTreeNode<T>> {
        self.live@.map_values(|i: int| *self.arena@[i].node)
    }

    /// The entries of the nodes in the queue.
    pub closed spec fn entries(&self) -> Seq<Entry> {
        self.live@.map_values(|i: int| (self.arena@[i].distance.value() as i64, i as usize))
    }

    /// The objects that the search has not yielded.
    pub open spec fn remaining(&self) -> Multiset<T> {
        bag_of(self.waiting())
    }

    /// What holds of every search: the queue is as it should be and holds
    /// the entries of the nodes that wait, every node is coherent and has
    /// its key.
    pub closed spec fn wf(&self) -> bool {
        &&& self.nodes.wf()
        &&& self.nodes.items() == self.entries().to_multiset()
        &&& forall|k: int|
            0 <= k < self.live@.len() ==> 0 <= #[trigger] self.live@[k] < self.arena@.len()
        &&& forall|i: int|
            0 <= i < self.arena@.len() ==> (#[trigger] self.arena@[i]).node.coherent()
                && self.arena@[i].distance.value() == node_key(
                *self.arena@[i].node,
                self.query_point,
            )
    }

    /// A search for the objects below `root` by their distance to
    /// `query_point`.
    pub fn new(root: &'a ParentNode<T>, query_point: PointOf<T>) -> (r: Self)
        requires
            root.coherent(),
        ensures
            r.wf(),
            r.query_point_spec() == query_point,
            r.remaining() == root.bag(),
    {
        let mut result = NearestNeighborDistance2Iterator {
            nodes: SmallHeap::new(),
            arena: Vec::new(),
            query_point,
            live: Ghost(Seq::empty()),
        };
        proof {
            assert(result.entries() =~= Seq::<Entry>::empty());
            assert(result.waiting() =~= Seq::<RTreeNode<T>>::empty());
            crate::node::lemma_bag_empty::<T>();
            lemma_coherent_parent(*root);
            vstd::seq_lib::to_multiset_len(result.entries());
            vstd::multiset::lemma_multiset_empty_len(result.entries().to_multiset());
        }
        result.extend_heap(root.children.as_slice());
        proof {
            assert(Multiset::<T>::empty().add(bag_of(root.children@)) =~= bag_of(root.children@)) by {
                broadcast use vstd::multiset::group_multiset_axioms;
            }
        }
        result
    }

    /// Puts `children` into the queue.
    fn extend_heap(&mut self, children: &'a [RTreeNode<T>])
        requires
            old(self).wf(),
            all_coherent(children@),
        ensures
            final(self).wf(),
            final(self).query_point_spec() == old(self).query_point_spec(),
            final(self).waiting() == old(self).waiting() + children@,
            final(self).remaining() == old(self).remaining().add(bag_of(children@)),
    {
        let mut k: usize = 0;
        assert(self.waiting() =~= old(self).waiting() + children@.take(0));
        while k < children.len()
            invariant
                k <= children@.len(),
                self.wf(),
                all_coherent(children@),
                self.query_point == old(self).query_point,
                self.waiting() == old(self).waiting() + children@.take(k as int),
            decreases children@.len() - k,
        {
            let child = &children[k];
            let distance = match child {
                RTreeNode::Parent(data) => data.envelope.distance_2(&self.query_point),
                RTreeNode::Leaf(t) => t.distance_2(&self.query_point),
            };
            let ghost before_waiting = self.waiting();
            let ghost before_entries = self.entries();
            let index = self.arena.len();
            let entry = (distance.to_i64(), index);
            self.arena.push(Waiting { node: child, distance });
            self.nodes.push(entry);
            proof {
                self.live@ = self.live@.push(index as int);
                assert(self.entries() =~= before_entries.push(entry));
                assert(self.waiting() =~= before_waiting.push(*child));
                vstd::seq_lib::to_multiset_build(before_entries, entry);
                assert(children@.take(k as int + 1) =~= children@.take(k as int).push(*child));
                assert(self.waiting() =~= old(self).waiting() + children@.take(k as int + 1));
            }
            k = k + 1;
        }
        proof {
            assert(children@.take(k as int) =~= children@);
            lemma_bag_concat(old(self).waiting(), children@);
        }
    }

    /// The nearest of the objects that have not been yielded, with its squared
    /// distance; `None` once all have been.
    pub fn next(&mut self) -> (r: Option<(&'a T, ScalarOf<T>)>)
        requires
            old(self).wf(),
        ensures
            final(self).wf(),
            final(self).query_point_spec() == old(self).query_point_spec(),
            r is None <==> old(self).remaining().len() == 0,
            r is None ==> final(self).remaining().len() == 0,
            r is Some ==> {
                let (t, distance) = r->0;
                &&& old(self).remaining().count(*t) > 0
                &&& final(self).remaining() == old(self).remaining().remove(*t)
                &&& distance.value() == t.distance_2_spec(old(self).query_point_spec())
                &&& forall|other: T|
                    old(self).remaining().count(other) > 0 ==> distance.value()
                        <= #[trigger] other.distance_2_spec(old(self).query_point_spec())
            },
    {
        loop
            invariant
                self.wf(),
                self.query_point == old(self).query_point,
                self.remaining() == old(self).remaining(),
            decreases node_count_of(self.waiting()),
        {
            let ghost waiting = self.waiting();
            let ghost entries = self.entries();
            let ghost live = self.live@;
            proof {
                vstd::seq_lib::to_multiset_len(entries);
            }
            match self.nodes.pop() {
                None => {
                    proof {
                        assert(waiting =~= Seq::<RTreeNode<T>>::empty());
                        crate::node::lemma_bag_empty::<T>();
                    }
                    return None;
                },
                Some(entry) => {
                    proof {
                        vstd::seq_lib::to_multiset_contains(entries, entry);
                    }
                    let ghost position = choose|p: int| 0 <= p < entries.len() && entries[p] == entry;
                    let index = entry.1;
                    let arena_len = self.arena.len();
                    proof {
                        assert(entries[position] == entry);
                        assert(0 <= live[position] < self.arena@.len());
                        assert(entries[position] == (
                            self.arena@[live[position]].distance.value() as i64,
                            live[position] as usize,
                        ));
                        assert(live[position] < arena_len);
                        assert(live[position] == index);
                        self.live@ = live.remove(position);
                        assert(self.entries() =~= entries.remove(position));
                        assert(self.waiting() =~= waiting.remove(position));
                        vstd::seq_lib::to_multiset_remove(entries, position);
                        lemma_bag_remove(waiting, position);
                        lemma_node_count_remove(waiting, position);
                        assert(waiting[position] == *self.arena@[index as int].node);
                    }
                    let current = &self.arena[index];
                    let distance = current.distance;
                    match current.node {
                        RTreeNode::Parent(data) => {
                            proof {
                                lemma_coherent_parent(*data);
                            }
                            let ghost shorter = self.waiting();
                            self.extend_heap(data.children.as_slice());
                            proof {
                                lemma_node_count_concat(shorter, data.children@);
                                assert(waiting[position].bag() == bag_of(data.children@));
                                assert(self.remaining() =~= old(self).remaining()) by {
                                    broadcast use vstd::multiset::group_multiset_axioms;
                                }
                            }
                        },
                        RTreeNode::Leaf(t) => {
                            proof {
                                lemma_leaf_bag(*t);
                                assert(old(self).remaining().count(*t) > 0) by {
                                    broadcast use vstd::multiset::group_multiset_axioms;
                                }
                                assert(self.remaining() =~= old(self).remaining().remove(*t)) by {
                                    broadcast use vstd::multiset::group_multiset_axioms;
                                }
                                assert(old(self).query_point_spec() == self.query_point);
                                assert forall|other: T|
                                    old(self).remaining().count(other) > 0 implies distance.value()
                                    <= #[trigger] other.distance_2_spec(
                                    old(self).query_point_spec(),
                                ) by {
                                    let (p, k) = lemma_bag_member(waiting, other);
                                    lemma_key_is_lower_bound(waiting[p], self.query_point, k);
                                    vstd::seq_lib::to_multiset_contains(entries, entries[p]);
                                    assert(entries.contains(entries[p]));
                                    assert(entry_le(entry, entries[p]));
                                    ScalarOf::<T>::lemma_limits(self.arena@[live[p]].distance);
                                    ScalarOf::<T>::lemma_limits(distance);
                                }
                            }
                            return Some((t, distance));
                        },
                    }
                },
            }
        }
    }
}

/// Yields the objects of a tree nearest first.
pub struct NearestNeighborIterator<'a, T: PointDistance> {
    iter: NearestNeighborDistance2Iterator<'a, T>,
}

impl<'a, T: PointDistance> NearestNeighborIterator<'a, T> {
    /// The search that yields the objects with their distances.
    pub closed spec fn inner(&self) -> NearestNeighborDistance2Iterator<'a, T> {
        self.iter
    }

    /// A search for the objects below `root` by their distance to
    /// `query_point`.
    pub fn new(root: &'a ParentNode<T>, query_point: PointOf<T>) -> (r: Self)
        requires
            root.coherent(),
        ensures
            r.inner().wf(),
            r.inner().query_point_spec() == query_point,
            r.inner().remaining() == root.bag(),
    {
        NearestNeighborIterator { iter: NearestNeighborDistance2Iterator::new(root, query_point) }
    }

    /// The nearest of the objects that have not been yielded; `None` once all
    /// have been.
    pub fn next(&mut self) -> (r: Option<&'a T>)
        requires
            old(self).inner().wf(),
        ensures
            final(self).inner().wf(),
            final(self).inner().query_point_spec() == old(self).inner().query_point_spec(),
            r is None <==> old(self).inner().remaining().len() == 0,
            r is None ==> final(self).inner().remaining().len() == 0,
            r is Some ==> {
                let t = r->0;
                &&& old(self).inner().remaining().count(*t) > 0
                &&& final(self).inner().remaining() == old(self).inner().remaining().remove(*t)
                &&& forall|other: T|
                    old(self).inner().remaining().count(other) > 0 ==> t.distance_2_spec(
                        old(self).inner().query_point_spec(),
                    ) <= #[trigger] other.distance_2_spec(old(self).inner().query_point_spec())
            },
    {
        match self.iter.next() {
            Some((t, _distance)) => Some(t),
            None => None,
        }
    }
}


/// Moving an object from one multiset to another changes nothing of what both
/// hold together.
pub proof fn lemma_move<V>(a: Multiset<V>, b: Multiset<V>, t: V)
    requires
        b.count(t) > 0,
    ensures
        a.insert(t).add(b.remove(t)) == a.add(b),
        a.add(b).count(t) > 0,
        b.remove(t).len() < b.len(),
{
    broadcast use vstd::multiset::group_multiset_axioms;

    assert forall|v: V| a.insert(t).add(b.remove(t)).count(v) == a.add(b).count(v) by {
        vstd::multiset::axiom_multiset_add(a.insert(t), b.remove(t), v);
        vstd::multiset::axiom_multiset_add(a, b, v);
        vstd::multiset::axiom_multiset_add(a, Multiset::singleton(t), v);
        vstd::multiset::axiom_multiset_sub(b, Multiset::singleton(t), v);
        if v == t {
            vstd::multiset::axiom_multiset_singleton(t);
        } else {
            vstd::multiset::axiom_multiset_singleton_different(t, v);
        }
    }
    assert(a.insert(t).add(b.remove(t)) =~= a.add(b));
    vstd::multiset::axiom_multiset_add(a, b, t);
    assert(b.remove(t).len() < b.len());
}

/// `t` is an object of `bag` that no object of `bag` is nearer to
/// `query_point` than.
pub open spec fn is_nearest<T: PointDistance>(t: T, bag: Multiset<T>, query_point: PointOf<T>) -> bool {
    &&& bag.count(t) > 0
    &&& forall|other: T|
        bag.count(other) > 0 ==> t.distance_2_spec(query_point) <= #[trigger] other.distance_2_spec(
            query_point,
        )
}

/// The objects of `refs` are in the order of their distances to
/// `query_point`.
pub open spec fn sorted_by_distance<T: PointDistance>(refs: Seq<&T>, query_point: PointOf<T>) -> bool {
    forall|i: int, j: int|
        0 <= i <= j < refs.len() ==> (#[trigger] refs[i]).distance_2_spec(query_point) <= (
        #[trigger] refs[j]).distance_2_spec(query_point)
}

/// All objects below `node` that are nearest to `query_point`: the nearest
/// one and all that are as near.
pub fn nearest_neighbors<'a, T: PointDistance>(node: &'a ParentNode<T>, query_point: PointOf<T>) -> (r:
    Vec<&'a T>)
    requires
        node.coherent(),
    ensures
        forall|t: T|
            #![trigger values(r@).to_multiset().count(t)]
            values(r@).to_multiset().count(t) == if is_nearest(t, node.bag(), query_point) {
                node.bag().count(t)
            } else {
                0
            },
{
    let mut nearest_neighbors = NearestNeighborDistance2Iterator::new(node, query_point);
    let mut result: Vec<&'a T> = Vec::new();
    let (first, first_distance_2) = match nearest_neighbors.next() {
        Some(item) => item,
        None => {
            // An empty tree has no neighbors.
            proof {
                assert(values(result@) =~= Seq::<T>::empty());
                assert forall|t: T|
                    #![trigger values(result@).to_multiset().count(t)]
                    values(result@).to_multiset().count(t) == if is_nearest(
                        t,
                        node.bag(),
                        query_point,
                    ) {
                        node.bag().count(t)
                    } else {
                        0
                    } by {
                    vstd::multiset::lemma_multiset_empty_len(node.bag());
                    vstd::seq_lib::to_multiset_len(values(result@));
                    vstd::multiset::lemma_multiset_empty_len(values(result@).to_multiset());
                    broadcast use vstd::multiset::group_multiset_axioms;

                }
            }
            return result;
        },
    };
    result.push(first);
    proof {
        assert(values(result@) =~= Seq::<T>::empty().push(*first));
        vstd::seq_lib::to_multiset_build(Seq::<T>::empty(), *first);
        assert(Seq::<T>::empty().to_multiset() =~= Multiset::<T>::empty()) by {
            vstd::seq_lib::to_multiset_len(Seq::<T>::empty());
            vstd::multiset::lemma_multiset_empty_len(Seq::<T>::empty().to_multiset());
        }
        assert(values(result@).to_multiset().add(nearest_neighbors.remaining()) =~= node.bag()) by {
            broadcast use vstd::multiset::group_multiset_axioms;
        }
    }
    // All that are as near as the first.
    let ghost mut farther: Multiset<T> = nearest_neighbors.remaining();
    let ghost mut done = false;
    loop
        invariant_except_break
            !done,
        invariant
            nearest_neighbors.wf(),
            nearest_neighbors.query_point_spec() == query_point,
            !done ==> farther == nearest_neighbors.remaining(),
            values(result@).to_multiset().add(farther) == node.bag(),
            forall|other: T|
                node.bag().count(other) > 0 ==> first_distance_2.value()
                    <= #[trigger] other.distance_2_spec(query_point),
            forall|t: T|
                values(result@).to_multiset().count(t) > 0 ==> #[trigger] t.distance_2_spec(
                    query_point,
                ) == first_distance_2.value(),
            done ==> forall|t: T|
                farther.count(t) > 0 ==> #[trigger] t.distance_2_spec(query_point)
                    > first_distance_2.value(),
        ensures
            done,
        decreases nearest_neighbors.remaining().len(),
    {
        let ghost before = nearest_neighbors.remaining();
        let ghost collected = values(result@);
        let ghost asked = nearest_neighbors.query_point_spec();
        match nearest_neighbors.next() {
            Some((next, next_distance_2)) => {
                proof {
                    assert(asked == query_point);
                    assert(farther == before);
                    lemma_move(values(result@).to_multiset(), before, *next);
                    assert forall|t: T| before.count(t) > 0 implies next_distance_2.value()
                        <= #[trigger] t.distance_2_spec(query_point) by {
                        assert(next_distance_2.value() <= t.distance_2_spec(asked));
                    }
                }
                if next_distance_2.to_i64() == first_distance_2.to_i64() {
                    result.push(next);
                    proof {
                        farther = nearest_neighbors.remaining();
                        assert(values(result@) =~= collected.push(*next));
                        vstd::seq_lib::to_multiset_build(collected, *next);
                        assert forall|t: T|
                            values(result@).to_multiset().count(
                                t,
                            ) > 0 implies #[trigger] t.distance_2_spec(query_point)
                            == first_distance_2.value() by {
                            if collected.to_multiset().count(t) == 0 {
                                assert(t == *next) by {
                                    broadcast use vstd::multiset::group_multiset_axioms;
                                }
                            }
                        }
                    }
                } else {
                    proof {
                        done = true;
                        assert forall|t: T| farther.count(t) > 0 implies #[trigger] t.distance_2_spec(
                            query_point,
                        ) > first_distance_2.value() by {
                            assert(next_distance_2.value() <= t.distance_2_spec(query_point));
                            assert(node.bag().count(*next) > 0);
                            assert(first_distance_2.value() <= next.distance_2_spec(query_point));
                        }
                    }
                    break ;
                }
            },
            None => {
                proof {
                    done = true;
                    vstd::multiset::lemma_multiset_empty_len(farther);
                    assert forall|t: T| farther.count(t) > 0 implies #[trigger] t.distance_2_spec(
                        query_point,
                    ) > first_distance_2.value() by {
                        broadcast use vstd::multiset::group_multiset_axioms;

                    }
                }
                break ;
            },
        }
    }
    proof {
        assert forall|t: T|
            #![trigger values(result@).to_multiset().count(t)]
            values(result@).to_multiset().count(t) == if is_nearest(t, node.bag(), query_point) {
                node.bag().count(t)
            } else {
                0
            } by {
            vstd::multiset::axiom_multiset_add(values(result@).to_multiset(), farther, t);
            let d = t.distance_2_spec(query_point);
            if values(result@).to_multiset().count(t) > 0 {
                assert(d == first_distance_2.value());
                assert(node.bag().count(t) > 0);
                assert(is_nearest(t, node.bag(), query_point));
                if farther.count(t) > 0 {
                    assert(d > first_distance_2.value());
                }
            } else if is_nearest(t, node.bag(), query_point) {
                // It is as near as the first, so it is not among the farther.
                assert(node.bag().count(*first) > 0) by {
                    vstd::multiset::axiom_multiset_add(
                        values(result@).to_multiset(),
                        farther,
                        *first,
                    );
                    vstd::seq_lib::to_multiset_contains(values(result@), *first);
                    assert(values(result@)[0] == *first);
                    assert(values(result@).contains(*first));
                }
                assert(d <= first.distance_2_spec(query_point));
                vstd::seq_lib::to_multiset_contains(values(result@), *first);
                assert(values(result@)[0] == *first);
                assert(values(result@).contains(*first));
                assert(first.distance_2_spec(query_point) == first_distance_2.value());
                if farther.count(t) > 0 {
                    assert(d > first_distance_2.value());
                }
            }
        }
    }
    result
}

/// All objects below `node`, nearest to `query_point` first, each with its
/// squared distance.
pub fn nearest_neighbors_with_distance_2<'a, T: PointDistance>(
    node: &'a ParentNode<T>,
    query_point: PointOf<T>,
) -> (r: Vec<(&'a T, ScalarOf<T>)>)
    requires
        node.coherent(),
    ensures
        values(r@.map_values(|item: (&'a T, ScalarOf<T>)| item.0)).to_multiset() == node.bag(),
        forall|k: int|
            0 <= k < r@.len() ==> (#[trigger] r@[k]).1.value() == r@[k].0.distance_2_spec(query_point),
        forall|i: int, j: int|
            0 <= i <= j < r@.len() ==> (#[trigger] r@[i]).1.value() <= (#[trigger] r@[j]).1.value(),
{
    let mut iter = NearestNeighborDistance2Iterator::new(node, query_point);
    let mut result: Vec<(&'a T, ScalarOf<T>)> = Vec::new();
    let ghost first_of = |item: (&'a T, ScalarOf<T>)| item.0;
    proof {
        assert(values(result@.map_values(first_of)) =~= Seq::<T>::empty());
        vstd::seq_lib::to_multiset_len(Seq::<T>::empty());
        vstd::multiset::lemma_multiset_empty_len(Seq::<T>::empty().to_multiset());
        assert(Multiset::<T>::empty().add(iter.remaining()) =~= node.bag()) by {
            broadcast use vstd::multiset::group_multiset_axioms;
        }
    }
    loop
        invariant
            iter.wf(),
            iter.query_point_spec() == query_point,
            first_of == |item: (&'a T, ScalarOf<T>)| item.0,
            values(result@.map_values(first_of)).to_multiset().add(iter.remaining()) == node.bag(),
            forall|k: int|
                0 <= k < result@.len() ==> (#[trigger] result@[k]).1.value()
                    == result@[k].0.distance_2_spec(query_point),
            forall|i: int, j: int|
                0 <= i <= j < result@.len() ==> (#[trigger] result@[i]).1.value() <= (
                #[trigger] result@[j]).1.value(),
            forall|k: int, other: T|
                0 <= k < result@.len() && iter.remaining().count(other) > 0 ==> (
                #[trigger] result@[k]).1.value() <= #[trigger] other.distance_2_spec(query_point),
        ensures
            iter.remaining().len() == 0,
        decreases iter.remaining().len(),
    {
        let ghost before = iter.remaining();
        let ghost collected = result@;
        match iter.next() {
            Some(item) => {
                result.push(item);
                proof {
                    let heads = values(collected.map_values(first_of));
                    lemma_move(heads.to_multiset(), before, *item.0);
                    assert(values(result@.map_values(first_of)) =~= heads.push(*item.0));
                    vstd::seq_lib::to_multiset_build(heads, *item.0);
                    assert forall|i: int, j: int| 0 <= i <= j < result@.len() implies (
                    #[trigger] result@[i]).1.value() <= (#[trigger] result@[j]).1.value() by {
                        if j == collected.len() && i < j {
                            assert(result@[i] == collected[i]);
                            assert(before.count(*item.0) > 0);
                            assert(collected[i].1.value() <= item.0.distance_2_spec(query_point));
                        }
                    }
                    assert forall|k: int, other: T|
                        0 <= k < result@.len() && iter.remaining().count(other) > 0 implies (
                    #[trigger] result@[k]).1.value() <= #[trigger] other.distance_2_spec(
                        query_point,
                    ) by {
                        assert(before.count(other) > 0) by {
                            broadcast use vstd::multiset::group_multiset_axioms;
                        }
                        if k < collected.len() {
                            assert(result@[k] == collected[k]);
                        }
                    }
                }
            },
            None => {
                break ;
            },
        }
    }
    proof {
        vstd::multiset::lemma_multiset_empty_len(iter.remaining());
        crate::algorithm::rstar::lemma_add_empty(
            values(result@.map_values(first_of)).to_multiset(),
        );
    }
    result
}


/// The leaf of a node of a run is a leaf of the run.
pub proof fn lemma_leaf_of_child<T: RTreeObject>(nodes: Seq<RTreeNode<T>>, j: int, m: int) -> (k: int)
    requires
        0 <= j < nodes.len(),
        0 <= m < nodes[j].leaves().len(),
    ensures
        0 <= k < leaves_of(nodes).len(),
        leaves_of(nodes)[k] == nodes[j].leaves()[m],
    decreases nodes.len(),
{
    let rest = nodes.drop_last();
    if j == nodes.len() - 1 {
        leaves_of(rest).len() + m
    } else {
        let k = lemma_leaf_of_child(rest, j, m);
        assert(rest[j] == nodes[j]);
        k
    }
}

/// A leaf of a run of nodes is a leaf of one of the nodes.
pub proof fn lemma_child_of_leaf<T: RTreeObject>(nodes: Seq<RTreeNode<T>>, k: int) -> (r: (int, int))
    requires
        0 <= k < leaves_of(nodes).len(),
    ensures
        0 <= r.0 < nodes.len(),
        0 <= r.1 < nodes[r.0].leaves().len(),
        nodes[r.0].leaves()[r.1] == leaves_of(nodes)[k],
    decreases nodes.len(),
{
    let rest = nodes.drop_last();
    if nodes.len() == 0 {
        (0, 0)
    } else if k < leaves_of(rest).len() {
        let r = lemma_child_of_leaf(rest, k);
        assert(rest[r.0] == nodes[r.0]);
        r
    } else {
        (nodes.len() - 1, k - leaves_of(rest).len())
    }
}

/// The envelope of a coherent parent without leaves is the empty envelope.
pub proof fn lemma_leafless_empty<T: RTreeObject>(node: RTreeNode<T>, i: int)
    requires
        node.coherent(),
        node.leaves().len() == 0,
        0 <= i < dims::<PointOf<T>>(),
    ensures
        node is Parent,
        lo(node.bounds(), i) == ScalarOf::<T>::upper_limit(),
        hi(node.bounds(), i) == ScalarOf::<T>::lower_limit(),
    decreases node, 1nat,
{
    match node {
        RTreeNode::Leaf(t) => {},
        RTreeNode::Parent(p) => {
            lemma_leafless_run_in_range(p.children@, i);
            assert(lo(p.envelope.bounds(), i) == crate::node::union_lo(p.children@, i));
        },
    }
}

/// The union of the envelopes of coherent nodes without leaves is the empty
/// envelope.
pub proof fn lemma_leafless_run_in_range<T: RTreeObject>(nodes: Seq<RTreeNode<T>>, i: int)
    requires
        all_coherent(nodes),
        leaves_of(nodes).len() == 0,
        0 <= i < dims::<PointOf<T>>(),
    ensures
        crate::node::union_lo(nodes, i) == ScalarOf::<T>::upper_limit(),
        crate::node::union_hi(nodes, i) == ScalarOf::<T>::lower_limit(),
    decreases nodes, 0nat,
{
    if nodes.len() > 0 {
        let rest = nodes.drop_last();
        let last = nodes.last();
        assert(last == nodes[nodes.len() - 1]);
        assert forall|k: int| 0 <= k < rest.len() implies (#[trigger] rest[k]).coherent() by {
            assert(rest[k] == nodes[k]);
        }
        lemma_leafless_run_in_range(rest, i);
        lemma_leafless_empty(last, i);
    }
}

/// Among coherent nodes that have leaves, one with leaves has the smallest
/// lower bound, and one with leaves the largest upper bound.
pub proof fn lemma_union_attained<T: RTreeObject>(nodes: Seq<RTreeNode<T>>, i: int) -> (r: (int, int))
    requires
        all_coherent(nodes),
        leaves_of(nodes).len() >= 1,
        0 <= i < dims::<PointOf<T>>(),
    ensures
        0 <= r.0 < nodes.len(),
        nodes[r.0].leaves().len() >= 1,
        lo(nodes[r.0].bounds(), i) == crate::node::union_lo(nodes, i),
        0 <= r.1 < nodes.len(),
        nodes[r.1].leaves().len() >= 1,
        hi(nodes[r.1].bounds(), i) == crate::node::union_hi(nodes, i),
    decreases nodes.len(),
{
    let rest = nodes.drop_last();
    let last = nodes.last();
    let at = nodes.len() - 1;
    assert(last == nodes[at]);
    assert forall|k: int| 0 <= k < rest.len() implies (#[trigger] rest[k]).coherent() by {
        assert(rest[k] == nodes[k]);
    }
    crate::node::lemma_bounds_in_range(last.bounds(), i);
    if leaves_of(rest).len() == 0 {
        lemma_leafless_run_in_range(rest, i);
        (at, at)
    } else {
        let r = lemma_union_attained(rest, i);
        assert(rest[r.0] == nodes[r.0]);
        assert(rest[r.1] == nodes[r.1]);
        if last.leaves().len() == 0 {
            lemma_leafless_empty(last, i);
            crate::node::lemma_bounds_in_range(rest[r.0].bounds(), i);
            crate::node::lemma_bounds_in_range(rest[r.1].bounds(), i);
            r
        } else {
            let first = if lo(last.bounds(), i) < crate::node::union_lo(rest, i) {
                at
            } else {
                r.0
            };
            let second = if hi(last.bounds(), i) > crate::node::union_hi(rest, i) {
                at
            } else {
                r.1
            };
            (first, second)
        }
    }
}

/// The envelope of a coherent node with leaves holds something.
pub proof fn lemma_leafy_valid<T: RTreeObject>(node: RTreeNode<T>)
    requires
        node.coherent(),
        node.leaves().len() >= 1,
    ensures
        is_valid(node.bounds()),
    decreases node,
{
    match node {
        RTreeNode::Leaf(t) => {
            t.lemma_envelope_valid();
        },
        RTreeNode::Parent(p) => {
            let b = p.envelope.bounds();
            assert forall|i: int|
                #![trigger lo(b, i)]
                #![trigger hi(b, i)]
                0 <= i < dims::<PointOf<T>>() implies lo(b, i) <= hi(b, i) by {
                let r = lemma_union_attained(p.children@, i);
                let c = p.children@[r.0];
                lemma_leafy_valid(c);
                assert(lo(c.bounds(), i) <= hi(c.bounds(), i));
                crate::algorithm::iterators::lemma_union_around(p.children@, r.0, i);
                assert(lo(b, i) == crate::node::union_lo(p.children@, i));
                assert(hi(b, i) == crate::node::union_hi(p.children@, i));
            }
        },
    }
}

/// Below a coherent node with leaves lies an object that is no farther from
/// a point than the min-max distance of the node's envelope.
pub proof fn lemma_min_max_reaches<T: PointDistance>(node: RTreeNode<T>, query_point: PointOf<T>) -> (k:
    int)
    requires
        node.coherent(),
        node.leaves().len() >= 1,
    ensures
        0 <= k < node.leaves().len(),
        node.leaves()[k].distance_2_spec(query_point) <= saturate::<ScalarOf<T>>(
            crate::aabb::envelope_min_max_dist_2(node.bounds(), query_point),
        ),
    decreases node,
{
    match node {
        RTreeNode::Leaf(t) => {
            t.lemma_min_max_is_farther(query_point);
            assert(node.leaves()[0] == t);
            0
        },
        RTreeNode::Parent(p) => {
            let b = p.envelope.bounds();
            PointOf::<T>::lemma_dimensions();
            crate::node::lemma_limits_of::<T>();
            let axis = crate::aabb::lemma_min_max_attained(b, query_point, dims::<PointOf<T>>());
            let r = lemma_union_attained(p.children@, axis);
            assert(lo(b, axis) == crate::node::union_lo(p.children@, axis));
            assert(hi(b, axis) == crate::node::union_hi(p.children@, axis));
            let c = coord(query_point, axis);
            let by_lower = (lo(b, axis) - c) * (lo(b, axis) - c) <= (hi(b, axis) - c) * (hi(b, axis)
                - c);
            let j = if by_lower {
                r.0
            } else {
                r.1
            };
            let child = p.children@[j];
            lemma_leafy_valid(child);
            crate::algorithm::intersection_iterator::lemma_child_within(p, j);
            assert(crate::aabb::near_square(child.bounds(), query_point, axis)
                <= crate::aabb::near_square(b, query_point, axis));
            crate::aabb::lemma_candidate_monotone(
                b,
                child.bounds(),
                query_point,
                axis,
                dims::<PointOf<T>>(),
            );
            crate::aabb::lemma_min_max_smallest(
                child.bounds(),
                query_point,
                dims::<PointOf<T>>(),
                axis,
            );
            let m = lemma_min_max_reaches(child, query_point);
            lemma_leaf_of_child(p.children@, j, m)
        },
    }
}

/// Among objects, one is nearest to a point.
pub proof fn lemma_nearest_exists<T: PointDistance>(leaves: Seq<T>, query_point: PointOf<T>) -> (k:
    int)
    requires
        leaves.len() >= 1,
    ensures
        0 <= k < leaves.len(),
        forall|j: int|
            0 <= j < leaves.len() ==> leaves[k].distance_2_spec(query_point) <= (
            #[trigger] leaves[j]).distance_2_spec(query_point),
    decreases leaves.len(),
{
    let rest = leaves.drop_last();
    let at = leaves.len() - 1;
    if rest.len() == 0 {
        at
    } else {
        let k = lemma_nearest_exists(rest, query_point);
        assert(rest[k] == leaves[k]);
        let r = if leaves[at].distance_2_spec(query_point) < leaves[k].distance_2_spec(
            query_point,
        ) {
            at
        } else {
            k
        };
        assert forall|j: int| 0 <= j < leaves.len() implies leaves[r].distance_2_spec(query_point)
            <= (#[trigger] leaves[j]).distance_2_spec(query_point) by {
            if j < at {
                assert(rest[j] == leaves[j]);
            }
        }
        r
    }
}

/// Every object below `node` is an object of `bag`.
pub open spec fn within<T: RTreeObject>(node: RTreeNode<T>, bag: Multiset<T>) -> bool {
    forall|m: int| 0 <= m < node.leaves().len() ==> bag.count(#[trigger] node.leaves()[m]) > 0
}

/// `target` is an object below `node`.
pub open spec fn covers<T: RTreeObject>(node: RTreeNode<T>, target: T) -> bool {
    exists|m: int| 0 <= m < node.leaves().len() && #[trigger] node.leaves()[m] == target
}

/// What a pruned search knows of the object it is after: it is an object
/// that no object is nearer than, and it is no farther than the bound.
pub open spec fn aims_at<T: PointDistance>(
    target: Option<T>,
    bag: Multiset<T>,
    query_point: PointOf<T>,
    bound: int,
) -> bool {
    match target {
        Some(t) => is_nearest(t, bag, query_point) && t.distance_2_spec(query_point) <= bound,
        None => bag.len() == 0,
    }
}

/// One of `nodes` from `from` on holds the object that the search is after.
pub open spec fn holds_target<T: RTreeObject>(
    nodes: Seq<RTreeNode<T>>,
    from: int,
    target: Option<T>,
) -> bool {
    target is Some ==> exists|p: int| from <= p < nodes.len() && covers(#[trigger] nodes[p], target->0)
}

impl<'a, T: PointDistance> NearestNeighborDistance2Iterator<'a, T> {
    /// Puts into the queue the children that are not farther than `bound`,
    /// the smallest min-max distance met so far, and lowers `bound` to the
    /// min-max distance of each of them.
    fn extend_heap_pruned(
        &mut self,
        children: &'a [RTreeNode<T>],
        bound: &mut ScalarOf<T>,
        Ghost(bag): Ghost<Multiset<T>>,
        Ghost(target): Ghost<Option<T>>,
    )
        requires
            old(self).wf(),
            all_coherent(children@),
            forall|j: int| 0 <= j < children@.len() ==> within(#[trigger] children@[j], bag),
            aims_at(target, bag, old(self).query_point_spec(), old(bound).value()),
        ensures
            final(self).wf(),
            final(self).query_point_spec() == old(self).query_point_spec(),
            aims_at(target, bag, old(self).query_point_spec(), final(bound).value()),
            final(self).waiting().len() >= old(self).waiting().len(),
            forall|p: int|
                0 <= p < old(self).waiting().len() ==> (#[trigger] final(self).waiting()[p]) == old(
                    self,
                ).waiting()[p],
            forall|p: int|
                old(self).waiting().len() <= p < final(self).waiting().len() ==> within(
                    #[trigger] final(self).waiting()[p],
                    bag,
                ),
            node_count_of(final(self).waiting()) <= node_count_of(old(self).waiting()) + node_count_of(
                children@,
            ),
            holds_target(children@, 0, target) ==> holds_target(
                final(self).waiting(),
                old(self).waiting().len() as int,
                target,
            ),
    {
        let mut k: usize = 0;
        proof {
            assert(children@.take(0) =~= Seq::<RTreeNode<T>>::empty());
        }
        while k < children.len()
            invariant
                k <= children@.len(),
                self.wf(),
                all_coherent(children@),
                forall|j: int| 0 <= j < children@.len() ==> within(#[trigger] children@[j], bag),
                self.query_point == old(self).query_point,
                aims_at(target, bag, self.query_point, bound.value()),
                self.waiting().len() >= old(self).waiting().len(),
                forall|p: int|
                    0 <= p < old(self).waiting().len() ==> (#[trigger] self.waiting()[p]) == old(
                        self,
                    ).waiting()[p],
                forall|p: int|
                    old(self).waiting().len() <= p < self.waiting().len() ==> within(
                        #[trigger] self.waiting()[p],
                        bag,
                    ),
                node_count_of(self.waiting()) <= node_count_of(old(self).waiting()) + node_count_of(
                    children@.take(k as int),
                ),
                holds_target(children@.take(k as int), 0, target) ==> holds_target(
                    self.waiting(),
                    old(self).waiting().len() as int,
                    target,
                ),
            decreases children@.len() - k,
        {
            let child = &children[k];
            let ghost before_waiting = self.waiting();
            let ghost before_entries = self.entries();
            let ghost done = children@.take(k as int);
            let ghost next = children@.take(k as int + 1);
            proof {
                assert(next =~= done + seq![*child]);
                lemma_node_count_concat(done, seq![*child]);
                lemma_node_count_single(*child);
                crate::node::lemma_limits_of::<T>();
                if target is Some && covers(*child, target->0) {
                    let m = choose|m: int|
                        0 <= m < child.leaves().len() && #[trigger] child.leaves()[m] == target->0;
                    lemma_key_is_lower_bound(*child, self.query_point, m);
                }
            }
            let distance_if_less_or_equal = match child {
                RTreeNode::Parent(data) => {
                    let distance = data.envelope.distance_2(&self.query_point);
                    if distance.less_eq(*bound) {
                        Some(distance)
                    } else {
                        None
                    }
                },
                RTreeNode::Leaf(t) => t.distance_2_if_less_or_equal(&self.query_point, *bound),
            };
            match distance_if_less_or_equal {
                Some(distance) => {
                    let min_max = child.envelope().min_max_dist_2(&self.query_point);
                    proof {
                        // The min-max distance of a child is no smaller than the distance of
                        // the nearest object.
                        ScalarOf::<T>::lemma_limits(min_max);
                        if target is Some {
                            target->0.lemma_min_max_is_farther(self.query_point);
                            if child.leaves().len() >= 1 {
                                let m = lemma_min_max_reaches(*child, self.query_point);
                                assert(bag.count(child.leaves()[m]) > 0);
                            } else {
                                PointOf::<T>::lemma_dimensions();
                                assert(crate::aabb::is_empty_envelope(child.bounds())) by {
                                    assert forall|i: int|
                                        #![trigger lo(child.bounds(), i)]
                                        #![trigger hi(child.bounds(), i)]
                                        0 <= i < dims::<PointOf<T>>() implies lo(child.bounds(), i)
                                        == ScalarOf::<T>::upper_limit() && hi(child.bounds(), i)
                                        == ScalarOf::<T>::lower_limit() by {
                                        lemma_leafless_empty(*child, i);
                                    }
                                }
                                crate::aabb::lemma_min_max_of_empty(child.bounds(), self.query_point);
                            }
                        }
                    }
                    *bound = crate::num::min_inline(*bound, min_max);
                    let index = self.arena.len();
                    let entry = (distance.to_i64(), index);
                    self.arena.push(Waiting { node: child, distance });
                    self.nodes.push(entry);
                    proof {
                        self.live@ = self.live@.push(index as int);
                        assert(self.entries() =~= before_entries.push(entry));
                        assert(self.waiting() =~= before_waiting.push(*child));
                        vstd::seq_lib::to_multiset_build(before_entries, entry);
                        assert(before_waiting.push(*child) =~= before_waiting + seq![*child]);
                        lemma_node_count_concat(before_waiting, seq![*child]);
                        assert forall|p: int|
                            old(self).waiting().len() <= p < self.waiting().len() implies within(
                            #[trigger] self.waiting()[p],
                            bag,
                        ) by {
                            if p < before_waiting.len() {
                                assert(self.waiting()[p] == before_waiting[p]);
                            } else {
                                assert(self.waiting()[p] == children@[k as int]);
                            }
                        }
                        if holds_target(next, 0, target) && target is Some {
                            let p = choose|p: int|
                                0 <= p < next.len() && covers(#[trigger] next[p], target->0);
                            if p < k {
                                assert(done[p] == next[p]);
                                assert(holds_target(done, 0, target));
                                let q = choose|q: int|
                                    old(self).waiting().len() <= q < before_waiting.len() && covers(
                                        #[trigger] before_waiting[q],
                                        target->0,
                                    );
                                assert(self.waiting()[q] == before_waiting[q]);
                            } else {
                                assert(next[p] == *child);
                                assert(self.waiting()[before_waiting.len() as int] == *child);
                            }
                        }
                    }
                },
                None => {
                    proof {
                        // A child that is dropped does not hold the nearest object.
                        if holds_target(next, 0, target) && target is Some {
                            let p = choose|p: int|
                                0 <= p < next.len() && covers(#[trigger] next[p], target->0);
                            if p < k {
                                assert(done[p] == next[p]);
                                assert(holds_target(done, 0, target));
                            } else {
                                assert(next[p] == *child);
                                assert(false);
                            }
                        }
                    }
                },
            }
            k = k + 1;
        }
        proof {
            assert(children@.take(k as int) =~= children@);
        }
    }
}

/// An object below `node` that is nearest to `query_point`; `None` where
/// there is no object.
///
/// The search opens the nodes nearest first. It drops every node that is
/// farther than the smallest min-max distance it has met: within that
/// distance an object is certain to be.
pub fn nearest_neighbor<'a, T: PointDistance>(node: &'a ParentNode<T>, query_point: PointOf<T>) -> (r:
    Option<&'a T>)
    requires
        node.coherent(),
    ensures
        r is None <==> node.leaves().len() == 0,
        r is Some ==> is_nearest(*r->0, node.bag(), query_point),
{
    let mut smallest_min_max = ScalarOf::<T>::max_value();
    let mut search = NearestNeighborDistance2Iterator {
        nodes: SmallHeap::new(),
        arena: Vec::new(),
        query_point,
        live: Ghost(Seq::empty()),
    };
    let ghost bag = node.bag();
    let ghost target: Option<T> = if node.leaves().len() >= 1 {
        Some(node.leaves()[choose|k: int| is_nearest_at(node.leaves(), query_point, k)])
    } else {
        None
    };
    proof {
        assert(search.entries() =~= Seq::<Entry>::empty());
        assert(search.waiting() =~= Seq::<RTreeNode<T>>::empty());
        vstd::seq_lib::to_multiset_len(search.entries());
        vstd::multiset::lemma_multiset_empty_len(search.entries().to_multiset());
        vstd::seq_lib::to_multiset_len(node.leaves());
        lemma_coherent_parent(*node);
        crate::node::lemma_limits_of::<T>();
        lemma_children_within(node.children@);
        if node.leaves().len() >= 1 {
            let k = lemma_nearest_exists(node.leaves(), query_point);
            assert(is_nearest_at(node.leaves(), query_point, k));
            let at = choose|k: int| is_nearest_at(node.leaves(), query_point, k);
            let t = node.leaves()[at];
            assert(is_nearest(t, bag, query_point)) by {
                vstd::seq_lib::to_multiset_contains(node.leaves(), t);
                assert(node.leaves().contains(t));
                assert forall|other: T| bag.count(other) > 0 implies t.distance_2_spec(query_point)
                    <= #[trigger] other.distance_2_spec(query_point) by {
                    vstd::seq_lib::to_multiset_contains(node.leaves(), other);
                    let j = choose|j: int| 0 <= j < node.leaves().len() && node.leaves()[j] == other;
                    assert(node.leaves()[at].distance_2_spec(query_point) <= node.leaves()[j].distance_2_spec(
                        query_point,
                    ));
                }
            }
            t.lemma_min_max_is_farther(query_point);
            let (j, m) = lemma_child_of_leaf(node.children@, at);
            assert(covers(node.children@[j], t));
        }
    }
    search.extend_heap_pruned(
        node.children.as_slice(),
        &mut smallest_min_max,
        Ghost(bag),
        Ghost(target),
    );
    loop
        invariant
            search.wf(),
            search.query_point == query_point,
            bag == node.bag(),
            bag.len() == node.leaves().len(),
            target is Some <==> node.leaves().len() >= 1,
            aims_at(target, bag, query_point, smallest_min_max.value()),
            forall|p: int| 0 <= p < search.waiting().len() ==> within(#[trigger] search.waiting()[p], bag),
            holds_target(search.waiting(), 0, target),
        decreases node_count_of(search.waiting()),
    {
        let ghost waiting = search.waiting();
        let ghost entries = search.entries();
        let ghost live = search.live@;
        proof {
            vstd::seq_lib::to_multiset_len(entries);
        }
        match search.nodes.pop() {
            None => {
                proof {
                    assert(waiting.len() == 0);
                }
                return None;
            },
            Some(entry) => {
                proof {
                    vstd::seq_lib::to_multiset_contains(entries, entry);
                }
                let ghost position = choose|p: int| 0 <= p < entries.len() && entries[p] == entry;
                let index = entry.1;
                let arena_len = search.arena.len();
                proof {
                    assert(entries[position] == entry);
                    assert(0 <= live[position] < search.arena@.len());
                    assert(entries[position] == (
                        search.arena@[live[position]].distance.value() as i64,
                        live[position] as usize,
                    ));
                    assert(live[position] < arena_len);
                    assert(live[position] == index);
                    search.live@ = live.remove(position);
                    assert(search.entries() =~= entries.remove(position));
                    assert(search.waiting() =~= waiting.remove(position));
                    vstd::seq_lib::to_multiset_remove(entries, position);
                    lemma_node_count_remove(waiting, position);
                    assert(waiting[position] == *search.arena@[index as int].node);
                    assert(within(waiting[position], bag));
                }
                let current = &search.arena[index];
                let distance = current.distance;
                match current.node {
                    RTreeNode::Parent(data) => {
                        proof {
                            lemma_coherent_parent(*data);
                            lemma_children_within(data.children@);
                            assert forall|j: int| 0 <= j < data.children@.len() implies within(
                                #[trigger] data.children@[j],
                                bag,
                            ) by {
                                assert forall|m: int|
                                    0 <= m < data.children@[j].leaves().len() implies bag.count(
                                    #[trigger] data.children@[j].leaves()[m],
                                ) > 0 by {
                                    let k = lemma_leaf_of_child(data.children@, j, m);
                                    assert(waiting[position].leaves()[k] == data.children@[j].leaves()[m]);
                                }
                            }
                        }
                        let ghost shorter = search.waiting();
                        search.extend_heap_pruned(
                            data.children.as_slice(),
                            &mut smallest_min_max,
                            Ghost(bag),
                            Ghost(target),
                        );
                        proof {
                            assert forall|p: int| 0 <= p < search.waiting().len() implies within(
                                #[trigger] search.waiting()[p],
                                bag,
                            ) by {
                                if p < shorter.len() {
                                    assert(search.waiting()[p] == shorter[p]);
                                    if p < position {
                                        assert(shorter[p] == waiting[p]);
                                    } else {
                                        assert(shorter[p] == waiting[p + 1]);
                                    }
                                }
                            }
                            if target is Some {
                                let held = choose|p: int|
                                    0 <= p < waiting.len() && covers(#[trigger] waiting[p], target->0);
                                if held == position {
                                    let m = choose|m: int|
                                        0 <= m < waiting[position].leaves().len()
                                            && #[trigger] waiting[position].leaves()[m] == target->0;
                                    let (j, inner) = lemma_child_of_leaf(data.children@, m);
                                    assert(covers(data.children@[j], target->0));
                                    assert(holds_target(data.children@, 0, target));
                                } else if held < position {
                                    assert(shorter[held] == waiting[held]);
                                    assert(search.waiting()[held] == shorter[held]);
                                } else {
                                    assert(shorter[held - 1] == waiting[held]);
                                    assert(search.waiting()[held - 1] == shorter[held - 1]);
                                }
                            }
                        }
                    },
                    RTreeNode::Leaf(t) => {
                        proof {
                            assert(waiting[position].leaves()[0] == *t);
                            assert(bag.count(*t) > 0);
                            vstd::multiset::lemma_multiset_empty_len(bag);
                            assert(target is Some);
                            let held = choose|p: int|
                                0 <= p < waiting.len() && covers(#[trigger] waiting[p], target->0);
                            let m = choose|m: int|
                                0 <= m < waiting[held].leaves().len()
                                    && #[trigger] waiting[held].leaves()[m] == target->0;
                            assert(0 <= live[held] < search.arena@.len());
                            assert(waiting[held] == *search.arena@[live[held]].node);
                            lemma_key_is_lower_bound(waiting[held], query_point, m);
                            vstd::seq_lib::to_multiset_contains(entries, entries[held]);
                            assert(entries.contains(entries[held]));
                            assert(entry_le(entry, entries[held]));
                            ScalarOf::<T>::lemma_limits(search.arena@[live[held]].distance);
                            ScalarOf::<T>::lemma_limits(distance);
                            assert(t.distance_2_spec(query_point) <= target->0.distance_2_spec(
                                query_point,
                            ));
                        }
                        return Some(t);
                    },
                }
            },
        }
    }
}

/// `k` is the place of an object of `leaves` that no object is nearer than.
pub open spec fn is_nearest_at<T: PointDistance>(
    leaves: Seq<T>,
    query_point: PointOf<T>,
    k: int,
) -> bool {
    &&& 0 <= k < leaves.len()
    &&& forall|j: int|
        0 <= j < leaves.len() ==> leaves[k].distance_2_spec(query_point) <= (
        #[trigger] leaves[j]).distance_2_spec(query_point)
}

/// The objects below the children of a node are objects below the node.
pub proof fn lemma_children_within<T: RTreeObject>(children: Seq<RTreeNode<T>>)
    ensures
        forall|j: int|
            0 <= j < children.len() ==> within(#[trigger] children[j], leaves_of(children).to_multiset()),
{
    assert forall|j: int| 0 <= j < children.len() implies within(
        #[trigger] children[j],
        leaves_of(children).to_multiset(),
    ) by {
        assert forall|m: int| 0 <= m < children[j].leaves().len() implies leaves_of(
            children,
        ).to_multiset().count(#[trigger] children[j].leaves()[m]) > 0 by {
            let k = lemma_leaf_of_child(children, j, m);
            vstd::seq_lib::to_multiset_contains(leaves_of(children), leaves_of(children)[k]);
            assert(leaves_of(children).contains(leaves_of(children)[k]));
        }
    }
}

} // verus!
