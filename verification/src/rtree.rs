//! The tree itself: a root, the number of objects, and the parameters.

use crate::algorithm::bulk_load::bulk_load_sequential;
use crate::algorithm::bulk_load::bulk_load_sequential::{levels, packed};
use crate::algorithm::bulk_load::cluster_group_iterator::is_tree_depth;
use crate::aabb::envelope_contains;
use crate::algorithm::intersection_iterator::{pairs_between, IntersectionIterator};
use crate::algorithm::iterators::{
    accepted, lemma_accepted_contains, lemma_accepted_sound, lemma_selected_exact, select_first, select_first_mut,
    select_nodes, selected, values,
};
use crate::algorithm::nearest_neighbor::{
    is_nearest, lemma_move, nearest_neighbor, nearest_neighbors, nearest_neighbors_with_distance_2,
    sorted_by_distance, NearestNeighborDistance2Iterator,
};
use crate::algorithm::removal::{all_populated, remove, DrainIterator};
use crate::algorithm::rstar::{
    lemma_add_empty, lemma_regular_tree, regular_tree, RStarInsertionStrategy, descent_fits, placed_in,
};
use crate::algorithm::selection_functions::{
    equal_objects_share_envelopes, is_exact, SelectAllFunc, SelectAtDistanceFunction,
    SelectAtPointFunction, SelectEqualsFunction, SelectInEnvelopeFuncIntersecting,
    SelectInEnvelopeFunction, SelectWithinDistanceFunction, SelectionFunction,
};
use crate::envelope::Envelope;
use crate::num::RTreeNum;
use crate::node::{all_regular, ParentNode, PointOf, RTreeNode, ScalarOf};
use crate::object::{PointDistance, RTreeObject};
use crate::params::Params;
use vstd::multiset::Multiset;
use crate::laws::{lemma_accepted_all, lemma_insert_remove};
use vstd::prelude::*;
use vstd::std_specs::cmp::PartialEqSpec;

verus! {

/// An n-dimensional r*-tree.
///
/// The tree holds objects and finds them by their envelopes. As a value it is
/// the multiset of the objects it holds, [`RTree::view`]; [`RTree::items`] are
/// the same objects in the order of the tree, in which searches yield them.
pub struct RTree<T: RTreeObject> {
    root: ParentNode<T>,
    size: usize,
    params: Params,
}

impl<T: RTreeObject> View for RTree<T> {
    type V = Multiset<T>;

    closed spec fn view(&self) -> Multiset<T> {
        self.root.bag()
    }
}

impl<T: RTreeObject> Default for RTree<T> {
    /// An empty tree with nodes of three to six children.
    fn default() -> (r: Self)
        ensures
            r.wf(),
            r@ == Multiset::<T>::empty(),
    {
        Self::new()
    }
}

impl<T: RTreeObject> RTree<T> {
    /// The root node.
    pub closed spec fn root_spec(&self) -> ParentNode<T> {
        self.root
    }

    /// The parameters.
    pub closed spec fn params_spec(&self) -> Params {
        self.params
    }

    /// The number of objects that the tree keeps count of.
    pub closed spec fn size_spec(&self) -> usize {
        self.size
    }

    /// The objects of the tree, in the order of the tree.
    pub open spec fn items(&self) -> Seq<T> {
        self.root_spec().leaves()
    }

    /// What holds of every tree: the parameters are valid, every parent keeps
    /// the union of its children's envelopes, and the count is the number of
    /// objects.
    pub open spec fn wf(&self) -> bool {
        &&& self.params_spec().wf()
        &&& self.root_spec().coherent()
        &&& self.size_spec() == self.items().len()
    }

    /// All leaves of the tree are at the same depth, and no parent but the
    /// root is without children.
    pub open spec fn is_balanced(&self) -> bool {
        regular_tree(self.root_spec(), 1, usize::MAX as int)
    }

    /// No parent of the tree but the root is without children.
    pub open spec fn is_populated(&self) -> bool {
        all_populated(self.root_spec().children@)
    }

    /// All leaves of the tree are at the same depth, the root has at most as
    /// many children as the parameters allow, and every other parent as many
    /// as they ask for.
    pub open spec fn is_regular(&self) -> bool {
        regular_tree(
            self.root_spec(),
            self.params_spec().min_size_spec() as int,
            self.params_spec().max_size_spec() as int,
        )
    }

    /// The objects in the order of the tree are the objects of the tree.
    pub proof fn lemma_items(&self)
        ensures
            self.items().to_multiset() == self@,
            self@.len() == self.items().len(),
    {
        vstd::seq_lib::to_multiset_len(self.items());
    }

    /// An empty tree with nodes of three to six children.
    pub fn new() -> (r: Self)
        ensures
            r.wf(),
            r@ == Multiset::<T>::empty(),
            r.items() == Seq::<T>::empty(),
            r.is_balanced(),
            r.is_regular(),
    {
        Self::new_with_params(Params::default())
    }

    /// An empty tree with the given parameters.
    pub fn new_with_params(params: Params) -> (r: Self)
        requires
            params.wf(),
        ensures
            r.wf(),
            r.params_spec() == params,
            r@ == Multiset::<T>::empty(),
            r.items() == Seq::<T>::empty(),
            r.is_balanced(),
            r.is_regular(),
    {
        let root = ParentNode::new_root(&params);
        proof {
            crate::node::lemma_bag_empty::<T>();
            assert(root.children@ =~= Seq::empty());
            assert(root.leaves() =~= Seq::<T>::empty());
        }
        RTree { root, size: 0, params }
    }

    /// The tree that holds `elements`, with nodes of three to six children.
    ///
    /// The tree is built level by level from the top, which is faster than
    /// inserting the objects one by one and gives a better tree.
    pub fn bulk_load(elements: Vec<T>) -> (r: Self)
        ensures
            r.wf(),
            r@ == elements@.to_multiset(),
            r@.len() == elements@.len(),
            elements@.len() <= 6 ==> r.items() == elements@ && r.is_balanced(),
            exists|depth: nat| #[trigger]
                is_tree_depth(depth as int, elements@.len() as int, 6) && r.root_spec().height()
                    <= levels(depth) && packed(r.root_spec().as_node(), depth, 6),
            elements@.len() > 6 ==> r.root_spec().children@.len() >= 2,
    {
        Self::bulk_load_with_params(Params::default(), elements)
    }

    /// The tree that holds `elements`, with the given parameters.
    ///
    /// The tree has the levels that its objects need and is packed from the
    /// top: a node whose objects fit one node has them as its children, and
    /// every other node has parents as children, each with no more objects
    /// than a tree of one level less can hold.
    pub fn bulk_load_with_params(params: Params, elements: Vec<T>) -> (r: Self)
        requires
            params.wf(),
        ensures
            r.wf(),
            r.params_spec() == params,
            r@ == elements@.to_multiset(),
            r@.len() == elements@.len(),
            elements@.len() <= params.max_size_spec() ==> r.items() == elements@ && r.is_balanced(),
            exists|depth: nat| #[trigger]
                is_tree_depth(depth as int, elements@.len() as int, params.max_size_spec() as int)
                    && r.root_spec().height() <= levels(depth) && packed(
                    r.root_spec().as_node(),
                    depth,
                    params.max_size_spec() as int,
                ),
            elements@.len() > params.max_size_spec() ==> r.root_spec().children@.len() >= 2,
    {
        let size = elements.len();
        let root = if size == 0 {
            proof {
                crate::node::lemma_bag_empty::<T>();
                vstd::seq_lib::to_multiset_len(elements@);
                vstd::multiset::lemma_multiset_empty_len(elements@.to_multiset());
            }
            let root = ParentNode::new_root(&params);
            assert(root.children@ =~= Seq::empty());
            proof {
                vstd::arithmetic::power::lemma_pow0(params.max_size_spec() as int);
                assert(is_tree_depth(0nat as int, 0, params.max_size_spec() as int));
                assert(root.height() <= levels(0));
                assert(root.leaves() =~= Seq::<T>::empty());
                assert(packed(root.as_node(), 0, params.max_size_spec() as int));
            }
            root
        } else {
            bulk_load_sequential(elements, &params)
        };
        proof {
            vstd::seq_lib::to_multiset_len(elements@);
            vstd::seq_lib::to_multiset_len(root.leaves());
            if elements@.len() <= params.max_size_spec() {
                if size == 0 {
                    assert(root.leaves() =~= elements@);
                } else {
                    assert(all_regular(root.children@, 0, 1, usize::MAX as int)) by {
                        assert forall|k: int| 0 <= k < root.children@.len() implies (
                        #[trigger] root.children@[k]).regular(0, 1, usize::MAX as int) by {
                            assert(root.children@[k] == RTreeNode::Leaf(elements@[k]));
                        }
                    }
                    assert(root.regular_root(1, 1, usize::MAX as int));
                    crate::algorithm::rstar::lemma_regular_tree(root, 1, 1, usize::MAX as int);
                }
            }
        }
        RTree { root, size, params }
    }

    /// The tree with the nodes of `root`, where every parent at and below it
    /// keeps the union of its children's envelopes; `None` where one does
    /// not.
    pub fn from_root(params: Params, root: ParentNode<T>) -> (r: Option<Self>)
        requires
            params.wf(),
        ensures
            r is Some ==> {
                &&& (r->0).wf()
                &&& (r->0).params_spec() == params
                &&& (r->0).root_spec() == root
                &&& (r->0)@ == root.bag()
            },
            r is None ==> !root.coherent() || root.leaves().len() > usize::MAX,
    {
        match root.coherent_size() {
            Some(size) => Some(RTree { root, size, params }),
            None => None,
        }
    }

    /// The parameters of the tree.
    pub fn params(&self) -> (r: Params)
        ensures
            r == self.params_spec(),
    {
        self.params
    }

    /// The number of objects in the tree.
    pub fn size(&self) -> (r: usize)
        requires
            self.wf(),
        ensures
            r == self@.len(),
            r == self.items().len(),
    {
        proof {
            self.lemma_items();
        }
        self.size
    }

    /// The root node, for searches of one's own.
    pub fn root(&self) -> (r: &ParentNode<T>)
        ensures
            *r == self.root_spec(),
    {
        &self.root
    }

    /// Takes the nodes out of the tree, which is left empty.
    pub(crate) fn take_root(&mut self) -> (r: (ParentNode<T>, usize))
        requires
            old(self).wf(),
        ensures
            final(self).wf(),
            final(self)@ == Multiset::<T>::empty(),
            final(self).params_spec() == old(self).params_spec(),
            r.0 == old(self).root_spec(),
            r.0.coherent(),
            r.0.bag() == old(self)@,
            r.1 == old(self)@.len(),
    {
        proof {
            self.lemma_items();
            crate::node::lemma_bag_empty::<T>();
        }
        let mut root = ParentNode::new_root(&self.params);
        assert(root.children@ =~= Seq::empty());
        assert(root.leaves() =~= Seq::<T>::empty());
        core::mem::swap(&mut self.root, &mut root);
        let size = self.size;
        self.size = 0;
        (root, size)
    }

    /// Puts `root` into the tree in place of the nodes it has.
    pub(crate) fn restore_root(&mut self, root: ParentNode<T>, size: usize)
        requires
            old(self).params_spec().wf(),
            root.coherent(),
            size == root.leaves().len(),
        ensures
            final(self).wf(),
            final(self)@ == root.bag(),
            final(self).root_spec() == root,
            final(self).params_spec() == old(self).params_spec(),
    {
        self.root = root;
        self.size = size;
    }

    /// An iterator that takes out of the tree the objects that `function`
    /// selects. The tree is borrowed and empty until the iterator is
    /// finished, and is then what the iterator leaves of it.
    pub fn drain_with_selection_function<'a, F: SelectionFunction<T>>(
        &'a mut self,
        function: F,
    ) -> (r: DrainIterator<'a, T, F>)
        requires
            old(self).wf(),
            function.wf(),
        ensures
            r.wf(),
            r.held() == old(self)@,
            r.function_spec() == function,
            r.original_size_spec() == old(self)@.len(),
            r.total_removed_spec() == 0,
            r.rtree.params_spec() == old(self).params_spec(),
            old(self).is_balanced() ==> r.is_balanced(),
            old(self).is_populated() ==> r.is_populated(),
            r.pending() == selected(old(self).root_spec().as_node(), r.function_spec()).to_multiset(),
            *final(r.rtree) == *final(self),
    {
        DrainIterator::new(self, function)
    }

    /// An iterator that takes out of the tree the objects whose envelope lies
    /// in `envelope`.
    pub fn drain_in_envelope<'a>(&'a mut self, envelope: T::Envelope) -> (r: DrainIterator<
        'a,
        T,
        SelectInEnvelopeFunction<T>,
    >)
        requires
            old(self).wf(),
        ensures
            r.wf(),
            r.held() == old(self)@,
            r.function_spec() == (SelectInEnvelopeFunction::<T> { envelope }),
            r.original_size_spec() == old(self)@.len(),
            r.total_removed_spec() == 0,
            r.rtree.params_spec() == old(self).params_spec(),
            old(self).is_balanced() ==> r.is_balanced(),
            old(self).is_populated() ==> r.is_populated(),
            r.pending() == selected(old(self).root_spec().as_node(), r.function_spec()).to_multiset(),
            *final(r.rtree) == *final(self),
    {
        let sel = SelectInEnvelopeFunction::new(envelope);
        self.drain_with_selection_function(sel)
    }

    /// An iterator that takes out of the tree the objects whose envelope
    /// intersects `envelope`.
    pub fn drain_in_envelope_intersecting<'a>(&'a mut self, envelope: T::Envelope) -> (r:
        DrainIterator<'a, T, SelectInEnvelopeFuncIntersecting<T>>)
        requires
            old(self).wf(),
        ensures
            r.wf(),
            r.held() == old(self)@,
            r.function_spec() == (SelectInEnvelopeFuncIntersecting::<T> { envelope }),
            r.original_size_spec() == old(self)@.len(),
            r.total_removed_spec() == 0,
            r.rtree.params_spec() == old(self).params_spec(),
            old(self).is_balanced() ==> r.is_balanced(),
            old(self).is_populated() ==> r.is_populated(),
            r.pending() == selected(old(self).root_spec().as_node(), r.function_spec()).to_multiset(),
            *final(r.rtree) == *final(self),
    {
        let selection_function = SelectInEnvelopeFuncIntersecting::new(envelope);
        self.drain_with_selection_function(selection_function)
    }

    /// Inserts `t` into the tree.
    ///
    /// The insertion goes down from the root, at each parent into the child
    /// that [`is_choice`](crate::algorithm::rstar::is_choice) names, and puts
    /// `t` at the end of the children of
    /// the node at which it arrives. Where that node is full, it gives up
    /// children for reinsertion or is split, and the tree is rearranged.
    pub fn insert(&mut self, t: T)
        requires
            old(self).wf(),
            old(self)@.len() < usize::MAX,
        ensures
            final(self).wf(),
            final(self)@ == old(self)@.insert(t),
            final(self).params_spec() == old(self).params_spec(),
            old(self).is_balanced() ==> final(self).is_balanced(),
            old(self).is_regular() ==> final(self).is_regular(),
            old(self).is_regular() ==> final(self).root_spec().height() >= old(self).root_spec().height(),
            old(self).is_regular() && descent_fits(
                old(self).root_spec().as_node(),
                RTreeNode::Leaf(t).bounds(),
                old(self).params_spec().max_size_spec() as int,
            ) ==> final(self).root_spec().height() == old(self).root_spec().height(),
            descent_fits(
                old(self).root_spec().as_node(),
                RTreeNode::Leaf(t).bounds(),
                old(self).params_spec().max_size_spec() as int,
            ) ==> placed_in(
                old(self).root_spec().as_node(),
                final(self).root_spec().as_node(),
                RTreeNode::Leaf(t),
            ),
    {
        proof {
            self.lemma_items();
            assert(old(self).is_balanced() == regular_tree(old(self).root, 1, usize::MAX as int));
            assert(old(self).is_regular() == regular_tree(
                old(self).root,
                self.params.min_size_spec() as int,
                self.params.max_size_spec() as int,
            ));
        }
        RStarInsertionStrategy::insert(&mut self.root, t, &self.params);
        self.size = self.size + 1;
        proof {
            vstd::seq_lib::to_multiset_len(self.root.leaves());
            vstd::seq_lib::to_multiset_len(old(self).root.leaves());
            assert(old(self).root.bag().insert(t).len() == old(self).root.bag().len() + 1) by {
                broadcast use vstd::multiset::group_multiset_axioms;
            }
        }
    }

    /// All objects of the tree, in the order of the tree.
    pub fn iter(&self) -> (r: Vec<&T>)
        requires
            self.wf(),
        ensures
            values(r@) == self.items(),
    {
        let func = SelectAllFunc;
        let r = select_nodes(&self.root, &func);
        proof {
            func.lemma_exact::<T>();
            lemma_selected_exact(self.root.as_node(), func);
            lemma_accepted_all(self.items(), func);
        }
        r
    }

    /// The objects whose envelope lies in `envelope`, in the order of the tree.
    pub fn locate_in_envelope(&self, envelope: &T::Envelope) -> (r: Vec<&T>)
        requires
            self.wf(),
        ensures
            values(r@) == accepted(self.items(), SelectInEnvelopeFunction::<T> { envelope: *envelope }),
    {
        let func = SelectInEnvelopeFunction::<T>::new(*envelope);
        let r = select_nodes(&self.root, &func);
        proof {
            func.lemma_exact();
            lemma_selected_exact(self.root.as_node(), func);
        }
        r
    }

    /// The objects whose envelope intersects `envelope`, in the order of the
    /// tree.
    pub fn locate_in_envelope_intersecting(&self, envelope: &T::Envelope) -> (r: Vec<&T>)
        requires
            self.wf(),
        ensures
            values(r@) == accepted(
                self.items(),
                SelectInEnvelopeFuncIntersecting::<T> { envelope: *envelope },
            ),
    {
        let func = SelectInEnvelopeFuncIntersecting::<T>::new(*envelope);
        let r = select_nodes(&self.root, &func);
        proof {
            func.lemma_exact();
            lemma_selected_exact(self.root.as_node(), func);
        }
        r
    }

    /// What a search with `selection_function` yields: the objects that the
    /// function selects, below parents that it unpacks all the way down.
    pub fn locate_with_selection_function<S: SelectionFunction<T>>(
        &self,
        selection_function: S,
    ) -> (r: Vec<&T>)
        requires
            selection_function.wf(),
        ensures
            values(r@) == selected(self.root_spec().as_node(), selection_function),
            self.wf() && is_exact::<T, S>(selection_function) ==> values(r@) == accepted(
                self.items(),
                selection_function,
            ),
    {
        let r = select_nodes(&self.root, &selection_function);
        proof {
            if self.wf() && is_exact::<T, S>(selection_function) {
                lemma_selected_exact(self.root.as_node(), selection_function);
            }
        }
        r
    }
}

impl<T: RTreeObject> RTree<T> {
    /// Removes the first object that a search with `function` yields, and
    /// returns it; `None` where the search yields nothing.
    pub fn remove_with_selection_function<F: SelectionFunction<T>>(&mut self, function: F) -> (r:
        Option<T>)
        requires
            old(self).wf(),
            function.wf(),
        ensures
            final(self).wf(),
            final(self).params_spec() == old(self).params_spec(),
            r is None <==> selected(old(self).root_spec().as_node(), function).len() == 0,
            r is None ==> final(self)@ == old(self)@ && final(self).items() == old(self).items(),
            r is Some ==> {
                &&& r->0 == selected(old(self).root_spec().as_node(), function)[0]
                &&& function.unpacks_leaf(r->0)
                &&& old(self)@.count(r->0) > 0
                &&& final(self)@ == old(self)@.remove(r->0)
            },
            is_exact::<T, F>(function) ==> (r is Some <==> accepted(old(self).items(), function).len()
                > 0),
            old(self).is_balanced() ==> final(self).is_balanced(),
    {
        proof {
            self.lemma_items();
            if is_exact::<T, F>(function) {
                lemma_selected_exact(self.root.as_node(), function);
            }
        }
        let r = remove(&mut self.root, &function);
        proof {
            if old(self).is_balanced() {
                assert(old(self).root.regular_root(old(self).root.height(), 1, usize::MAX as int));
                lemma_still_regular_tree(old(self).root, self.root, 1, usize::MAX as int);
            }
        }
        match &r {
            Some(t) => {
                proof {
                    vstd::seq_lib::to_multiset_len(self.root.leaves());
                    vstd::seq_lib::to_multiset_len(old(self).root.leaves());
                    lemma_insert_remove(self.root.bag(), *t);
                }
                self.size = self.size - 1;
            },
            None => {},
        }
        r
    }

    /// The pairs of an object of this tree and an object of `other` whose
    /// envelopes intersect.
    pub fn intersection_candidates_with_other_tree<'a, U: RTreeObject<Envelope = T::Envelope>>(
        &'a self,
        other: &'a RTree<U>,
    ) -> (r: Vec<(&'a T, &'a U)>)
        requires
            self.wf(),
            other.wf(),
        ensures
            r@.map_values(|pair: (&'a T, &'a U)| (*pair.0, *pair.1)).to_multiset() == pairs_between(
                self.items(),
                other.items(),
            ),
    {
        let mut iter = IntersectionIterator::new(&self.root, &other.root);
        let mut result: Vec<(&'a T, &'a U)> = Vec::new();
        let ghost unref = |pair: (&'a T, &'a U)| (*pair.0, *pair.1);
        proof {
            assert(result@.map_values(unref) =~= Seq::<(T, U)>::empty());
            vstd::seq_lib::to_multiset_len(Seq::<(T, U)>::empty());
            vstd::multiset::lemma_multiset_empty_len(Seq::<(T, U)>::empty().to_multiset());
            assert(Multiset::<(T, U)>::empty().add(iter.remaining()) =~= iter.remaining()) by {
                broadcast use vstd::multiset::group_multiset_axioms;
            }
        }
        loop
            invariant
                iter.wf(),
                unref == |pair: (&'a T, &'a U)| (*pair.0, *pair.1),
                result@.map_values(unref).to_multiset().add(iter.remaining()) == pairs_between(
                    self.items(),
                    other.items(),
                ),
            ensures
                iter.remaining().len() == 0,
            decreases iter.remaining().len(),
        {
            let ghost before = iter.remaining();
            let ghost collected = result@.map_values(unref);
            match iter.next() {
                Some(pair) => {
                    result.push(pair);
                    proof {
                        lemma_move(collected.to_multiset(), before, (*pair.0, *pair.1));
                        assert(result@.map_values(unref) =~= collected.push((*pair.0, *pair.1)));
                        vstd::seq_lib::to_multiset_build(collected, (*pair.0, *pair.1));
                    }
                },
                None => {
                    break ;
                },
            }
        }
        proof {
            vstd::multiset::lemma_multiset_empty_len(iter.remaining());
            lemma_add_empty(result@.map_values(unref).to_multiset());
        }
        result
    }
}

impl<T: RTreeObject + PartialEq> RTree<T> {
    /// Whether the tree holds an object that is equal to `t` and whose
    /// envelope lies in the envelope of `t`.
    pub fn contains(&self, t: &T) -> (r: bool)
        requires
            self.wf(),
            T::obeys_eq_spec(),
        ensures
            r == exists|k: int|
                0 <= k < self.items().len() && (#[trigger] self.items()[k]).eq_spec(t)
                    && envelope_contains(
                    t.envelope_spec().bounds(),
                    self.items()[k].envelope_spec().bounds(),
                ),
    {
        let envelope = t.envelope();
        let func = SelectInEnvelopeFunction::<T>::new(envelope);
        let located = select_nodes(&self.root, &func);
        proof {
            func.lemma_exact();
            lemma_selected_exact(self.root.as_node(), func);
        }
        let ghost candidates = accepted(self.items(), func);
        let mut k: usize = 0;
        while k < located.len()
            invariant
                k <= located@.len(),
                values(located@) == candidates,
                candidates == accepted(self.items(), func),
                func.envelope == t.envelope_spec(),
                T::obeys_eq_spec(),
                forall|j: int| 0 <= j < k ==> !(#[trigger] candidates[j]).eq_spec(t),
            decreases located@.len() - k,
        {
            assert(values(located@)[k as int] == *located@[k as int]);
            if *located[k] == *t {
                proof {
                    lemma_accepted_sound(self.items(), func, k as int);
                    let found = candidates[k as int];
                    assert(self.items().contains(found));
                    let at = choose|at: int| 0 <= at < self.items().len() && self.items()[at] == found;
                    assert(self.items()[at].eq_spec(t));
                    assert(func.unpacks_leaf(self.items()[at]));
                }
                return true;
            }
            k = k + 1;
        }
        proof {
            if exists|k: int|
                0 <= k < self.items().len() && (#[trigger] self.items()[k]).eq_spec(t)
                    && envelope_contains(
                    t.envelope_spec().bounds(),
                    self.items()[k].envelope_spec().bounds(),
                ) {
                let at = choose|k: int|
                    0 <= k < self.items().len() && (#[trigger] self.items()[k]).eq_spec(t)
                        && envelope_contains(
                        t.envelope_spec().bounds(),
                        self.items()[k].envelope_spec().bounds(),
                    );
                lemma_accepted_contains(self.items(), func, at);
                let j = choose|j: int| 0 <= j < candidates.len() && candidates[j] == self.items()[at];
                assert(!candidates[j].eq_spec(t));
            }
        }
        false
    }

    /// Removes an object that is equal to `t`, the first that a search for
    /// one yields, and returns it.
    ///
    /// The search looks only into parents whose envelope contains the
    /// envelope of `t`. Where equal objects have the same envelope, it finds
    /// an object equal to `t` if the tree holds one.
    pub fn remove(&mut self, t: &T) -> (r: Option<T>)
        requires
            old(self).wf(),
            T::obeys_eq_spec(),
        ensures
            final(self).wf(),
            final(self).params_spec() == old(self).params_spec(),
            r is None ==> final(self)@ == old(self)@ && final(self).items() == old(self).items(),
            r is Some ==> {
                &&& r->0.eq_spec(t)
                &&& old(self)@.count(r->0) > 0
                &&& final(self)@ == old(self)@.remove(r->0)
            },
            equal_objects_share_envelopes::<T>() ==> (r is Some <==> exists|k: int|
                0 <= k < old(self).items().len() && (#[trigger] old(self).items()[k]).eq_spec(t)),
            old(self).is_balanced() ==> final(self).is_balanced(),
    {
        let removal_function = SelectEqualsFunction::new(t);
        proof {
            if equal_objects_share_envelopes::<T>() {
                removal_function.lemma_exact();
                let found = accepted(self.items(), removal_function);
                if found.len() > 0 {
                    lemma_accepted_sound(self.items(), removal_function, 0);
                    let at = choose|at: int|
                        0 <= at < self.items().len() && self.items()[at] == found[0];
                    assert(self.items()[at].eq_spec(t));
                }
                if exists|k: int|
                    0 <= k < self.items().len() && (#[trigger] self.items()[k]).eq_spec(t) {
                    let at = choose|k: int|
                        0 <= k < self.items().len() && (#[trigger] self.items()[k]).eq_spec(t);
                    lemma_accepted_contains(self.items(), removal_function, at);
                }
            }
        }
        self.remove_with_selection_function(removal_function)
    }
}

/// A tree that is regular at the depth at which it was a regular tree is a
/// regular tree.
pub proof fn lemma_still_regular_tree<T: RTreeObject>(
    before: ParentNode<T>,
    after: ParentNode<T>,
    lo: int,
    hi: int,
)
    requires
        regular_tree(before, lo, hi),
        after.regular_root(before.height(), lo, hi),
        lo >= 1,
    ensures
        regular_tree(after, lo, hi),
{
    if after.children@.len() >= 1 {
        lemma_regular_tree(after, before.height(), lo, hi);
    } else {
        assert(after.height() == 1);
    }
}

impl<T: PointDistance> RTree<T> {
    /// The first object that holds `point`; `None` where no object does.
    pub fn locate_at_point(&self, point: &PointOf<T>) -> (r: Option<&T>)
        requires
            self.wf(),
        ensures
            r is None <==> accepted(self.items(), SelectAtPointFunction::<T> { point: *point }).len()
                == 0,
            r is Some ==> *r->0 == accepted(
                self.items(),
                SelectAtPointFunction::<T> { point: *point },
            )[0],
    {
        let func = SelectAtPointFunction::<T>::new(*point);
        proof {
            func.lemma_exact();
            lemma_selected_exact(self.root.as_node(), func);
        }
        select_first(&self.root, &func)
    }

    /// The first object that holds `point`, to be changed in place; `None`
    /// where no object does.
    ///
    /// Whoever changes the object answers for its envelope: the tree is what
    /// it was only as long as the envelope stays.
    pub fn locate_at_point_mut(&mut self, point: &PointOf<T>) -> (r: Option<&mut T>)
        requires
            old(self).wf(),
        ensures
            r is None <==> accepted(old(self).items(), SelectAtPointFunction::<T> { point: *point }).len()
                == 0,
            r is Some ==> *r->0 == accepted(
                old(self).items(),
                SelectAtPointFunction::<T> { point: *point },
            )[0],
    {
        let func = SelectAtPointFunction::<T>::new(*point);
        proof {
            func.lemma_exact();
            lemma_selected_exact(self.root.as_node(), func);
        }
        select_first_mut(&mut self.root, &func)
    }

    /// Removes the first object that holds `point`, and returns it.
    pub fn remove_at_point(&mut self, point: &PointOf<T>) -> (r: Option<T>)
        requires
            old(self).wf(),
        ensures
            final(self).wf(),
            final(self).params_spec() == old(self).params_spec(),
            r is None <==> accepted(
                old(self).items(),
                SelectAtPointFunction::<T> { point: *point },
            ).len() == 0,
            r is None ==> final(self)@ == old(self)@ && final(self).items() == old(self).items(),
            r is Some ==> {
                &&& r->0 == accepted(old(self).items(), SelectAtPointFunction::<T> { point: *point })[0]
                &&& r->0.contains_point_spec(*point)
                &&& old(self)@.count(r->0) > 0
                &&& final(self)@ == old(self)@.remove(r->0)
            },
            old(self).is_balanced() ==> final(self).is_balanced(),
    {
        let removal_function = SelectAtPointFunction::<T>::new(*point);
        proof {
            removal_function.lemma_exact();
            lemma_selected_exact(self.root.as_node(), removal_function);
        }
        self.remove_with_selection_function(removal_function)
    }

    /// The objects within the squared distance `max_squared_radius` of
    /// `query_point`, in the order of the tree.
    pub fn locate_within_distance(
        &self,
        query_point: PointOf<T>,
        max_squared_radius: ScalarOf<T>,
    ) -> (r: Vec<&T>)
        requires
            self.wf(),
        ensures
            values(r@) == accepted(
                self.items(),
                SelectWithinDistanceFunction::<T> {
                    circle_origin: query_point,
                    squared_max_distance: max_squared_radius,
                },
            ),
    {
        let func = SelectWithinDistanceFunction::<T>::new(query_point, max_squared_radius);
        let r = select_nodes(&self.root, &func);
        proof {
            func.lemma_exact();
            lemma_selected_exact(self.root.as_node(), func);
        }
        r
    }

    /// An object nearest to `query_point`; `None` for an empty tree.
    pub fn nearest_neighbor(&self, query_point: &PointOf<T>) -> (r: Option<&T>)
        requires
            self.wf(),
        ensures
            r is None <==> self@.len() == 0,
            r is Some ==> is_nearest(*r->0, self@, *query_point),
    {
        proof {
            self.lemma_items();
        }
        if self.size > 0 {
            match nearest_neighbor(&self.root, *query_point) {
                Some(t) => Some(t),
                None => {
                    // The search with pruning finds a neighbor in every tree that
                    // holds an object. The full search stands behind it.
                    let mut iter = NearestNeighborDistance2Iterator::new(&self.root, *query_point);
                    match iter.next() {
                        Some((t, _)) => Some(t),
                        None => None,
                    }
                },
            }
        } else {
            None
        }
    }

    /// All objects nearest to `query_point`: an object nearest to it and all
    /// that are as near.
    pub fn nearest_neighbors(&self, query_point: &PointOf<T>) -> (r: Vec<&T>)
        requires
            self.wf(),
        ensures
            forall|t: T|
                #![trigger values(r@).to_multiset().count(t)]
                values(r@).to_multiset().count(t) == if is_nearest(t, self@, *query_point) {
                    self@.count(t)
                } else {
                    0
                },
    {
        nearest_neighbors(&self.root, *query_point)
    }

    /// All objects of the tree, nearest to `query_point` first.
    pub fn nearest_neighbor_iter(&self, query_point: &PointOf<T>) -> (r: Vec<&T>)
        requires
            self.wf(),
        ensures
            values(r@).to_multiset() == self@,
            sorted_by_distance(r@, *query_point),
    {
        let with_distances = nearest_neighbors_with_distance_2(&self.root, *query_point);
        let mut result: Vec<&T> = Vec::new();
        let ghost first_of = |item: (&T, ScalarOf<T>)| item.0;
        let mut k: usize = 0;
        assert(result@ =~= with_distances@.map_values(first_of).take(0));
        while k < with_distances.len()
            invariant
                k <= with_distances@.len(),
                first_of == |item: (&T, ScalarOf<T>)| item.0,
                result@ == with_distances@.map_values(first_of).take(k as int),
            decreases with_distances@.len() - k,
        {
            result.push(with_distances[k].0);
            assert(result@ =~= with_distances@.map_values(first_of).take(k as int + 1));
            k = k + 1;
        }
        proof {
            assert(result@ =~= with_distances@.map_values(first_of));
            assert forall|i: int, j: int| 0 <= i <= j < result@.len() implies (
            #[trigger] result@[i]).distance_2_spec(*query_point) <= (
            #[trigger] result@[j]).distance_2_spec(*query_point) by {
                assert(with_distances@[i].1.value() <= with_distances@[j].1.value());
            }
        }
        result
    }

    /// All objects of the tree, nearest to `query_point` first, each with its
    /// squared distance.
    pub fn nearest_neighbor_iter_with_distance_2(&self, query_point: &PointOf<T>) -> (r: Vec<
        (&T, ScalarOf<T>),
    >)
        requires
            self.wf(),
        ensures
            values(r@.map_values(|item: (&T, ScalarOf<T>)| item.0)).to_multiset() == self@,
            forall|k: int|
                0 <= k < r@.len() ==> (#[trigger] r@[k]).1.value() == r@[k].0.distance_2_spec(
                    *query_point,
                ),
            forall|i: int, j: int|
                0 <= i <= j < r@.len() ==> (#[trigger] r@[i]).1.value() <= (#[trigger] r@[j]).1.value(),
    {
        nearest_neighbors_with_distance_2(&self.root, *query_point)
    }

    /// An iterator that takes out of the tree the objects within the squared
    /// distance `max_squared_radius` of `query_point`.
    pub fn drain_within_distance<'a>(
        &'a mut self,
        query_point: PointOf<T>,
        max_squared_radius: ScalarOf<T>,
    ) -> (r: DrainIterator<'a, T, SelectWithinDistanceFunction<T>>)
        requires
            old(self).wf(),
        ensures
            r.wf(),
            r.held() == old(self)@,
            r.function_spec() == (SelectWithinDistanceFunction::<T> {
                circle_origin: query_point,
                squared_max_distance: max_squared_radius,
            }),
            r.original_size_spec() == old(self)@.len(),
            r.total_removed_spec() == 0,
            r.rtree.params_spec() == old(self).params_spec(),
            old(self).is_balanced() ==> r.is_balanced(),
            old(self).is_populated() ==> r.is_populated(),
            r.pending() == selected(old(self).root_spec().as_node(), r.function_spec()).to_multiset(),
            *final(r.rtree) == *final(self),
    {
        let selection_function = SelectWithinDistanceFunction::new(query_point, max_squared_radius);
        self.drain_with_selection_function(selection_function)
    }

    /// Removes an object nearest to `query_point`, and returns it; `None` for
    /// an empty tree.
    pub fn pop_nearest_neighbor(&mut self, query_point: &PointOf<T>) -> (r: Option<T>)
        requires
            old(self).wf(),
        ensures
            final(self).wf(),
            final(self).params_spec() == old(self).params_spec(),
            r is None <==> old(self)@.len() == 0,
            r is None ==> final(self)@ == old(self)@,
            r is Some ==> is_nearest(r->0, old(self)@, *query_point) && final(self)@ == old(
                self,
            )@.remove(r->0),
            old(self).is_balanced() ==> final(self).is_balanced(),
    {
        let mut iter = NearestNeighborDistance2Iterator::new(&self.root, *query_point);
        let found = match iter.next() {
            Some((neighbor, distance)) => {
                let ghost nearest = *neighbor;
                Some((neighbor.envelope(), distance, Ghost(nearest)))
            },
            None => None,
        };
        match found {
            Some((envelope, distance, witness)) => {
                let ghost nearest = witness@;
                let removal_function = SelectAtDistanceFunction::<T>::new(
                    envelope,
                    *query_point,
                    distance,
                );
                proof {
                    removal_function.lemma_exact();
                    vstd::seq_lib::to_multiset_contains(self.items(), nearest);
                    let at = choose|at: int| 0 <= at < self.items().len() && self.items()[at] == nearest;
                    lemma_accepted_contains(self.items(), removal_function, at);
                }
                self.remove_with_selection_function(removal_function)
            },
            None => None,
        }
    }
}

impl<T: PointDistance> RTree<T> {
    /// The objects that hold `point`, in the order of the tree.
    pub fn locate_all_at_point(&self, point: &PointOf<T>) -> (r: Vec<&T>)
        requires
            self.wf(),
        ensures
            values(r@) == accepted(self.items(), SelectAtPointFunction::<T> { point: *point }),
    {
        let func = SelectAtPointFunction::<T>::new(*point);
        let r = select_nodes(&self.root, &func);
        proof {
            func.lemma_exact();
            lemma_selected_exact(self.root.as_node(), func);
        }
        r
    }
}

} // verus!
