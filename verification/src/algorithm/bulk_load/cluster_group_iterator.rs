//! Partitioning objects into groups of clusters along an axis.

use crate::aabb::lo;
use crate::algorithm::bulk_load::level_partitioning::{div_up, div_up_spec};
use crate::envelope::Envelope;
use crate::node::PointOf;
use crate::num::RTreeNum;
use crate::object::RTreeObject;
use crate::params::Params;
use crate::point::Point;
use vstd::arithmetic::power::{lemma_pow0, lemma_pow_increases, pow};
use vstd::prelude::*;

verus! {

/// The lower bound of the envelope of `t` on `axis`.
pub open spec fn object_key<T: RTreeObject>(t: T, axis: usize) -> int {
    lo(t.envelope_spec().bounds(), axis as int)
}

/// The lower bound of the envelope of `t` on `axis`.
pub fn lower_coordinate<T: RTreeObject>(t: &T, axis: usize) -> (r: i64)
    requires
        axis < PointOf::<T>::DIMENSIONS,
    ensures
        r == object_key(*t, axis),
{
    t.envelope().lower().nth(axis).to_i64()
}

/// No object of `first` has a larger lower bound on `axis` than an object of
/// `second`.
pub open spec fn partitioned<T: RTreeObject>(first: Seq<T>, second: Seq<T>, axis: usize) -> bool {
    forall|i: int, j: int|
        0 <= i < first.len() && 0 <= j < second.len() ==> object_key(#[trigger] first[i], axis)
            <= object_key(#[trigger] second[j], axis)
}

/// Rearranges `envelopes` so that none of the first `selection_size` objects
/// has a larger lower bound on `axis` than one of the others.
///
/// Calls `pdqselect::select_by_key` with the lower bound as the key. The
/// contract claims what its documentation states: the slice is rearranged in
/// place, and afterwards the elements before the index are not greater, and
/// those behind it not smaller, than the element at the index.
#[verifier::external_body]
fn partition_envelopes<T: RTreeObject>(axis: usize, envelopes: &mut Vec<T>, selection_size: usize)
    requires
        axis < PointOf::<T>::DIMENSIONS,
        selection_size < old(envelopes)@.len(),
    ensures
        final(envelopes)@.to_multiset() == old(envelopes)@.to_multiset(),
        partitioned(
            final(envelopes)@.subrange(0, selection_size as int),
            final(envelopes)@.subrange(selection_size as int, final(envelopes)@.len() as int),
            axis,
        ),
{
    pdqselect::select_by_key(envelopes.as_mut_slice(), selection_size, |t| lower_coordinate(t, axis));
}

/// Hands out the objects it was made with in groups: each group holds the
/// objects with the smallest lower bounds, on one axis, of those that are
/// left.
pub struct ClusterGroupIterator<T: RTreeObject> {
    remaining: Vec<T>,
    slab_size: usize,
    cluster_dimension: usize,
}

/// The older name of [`ClusterGroupIterator`].
pub type SlabIterator<T> = ClusterGroupIterator<T>;

impl<T: RTreeObject> ClusterGroupIterator<T> {
    /// What holds of every iterator: its axis is one of the point type, and
    /// its groups are not empty.
    #[verifier::type_invariant]
    pub closed spec fn inv(&self) -> bool {
        &&& self.cluster_dimension < PointOf::<T>::DIMENSIONS
        &&& self.remaining@.len() > 0 ==> self.slab_size >= 1
    }

    /// The objects that have not been handed out.
    pub closed spec fn remaining_spec(&self) -> Seq<T> {
        self.remaining@
    }

    /// The size of the groups but the last.
    pub closed spec fn slab_size_spec(&self) -> usize {
        self.slab_size
    }

    /// The axis along which the objects are grouped.
    pub closed spec fn cluster_dimension_spec(&self) -> usize {
        self.cluster_dimension
    }

    /// An iterator over `elements` in `number_of_clusters_on_axis` groups
    /// along the axis `cluster_dimension`.
    pub fn new(elements: Vec<T>, number_of_clusters_on_axis: usize, cluster_dimension: usize) -> (r:
        Self)
        requires
            number_of_clusters_on_axis >= 1,
            cluster_dimension < PointOf::<T>::DIMENSIONS,
        ensures
            r.remaining_spec() == elements@,
            r.slab_size_spec() == div_up_spec(
                elements@.len() as int,
                number_of_clusters_on_axis as int,
            ),
            r.cluster_dimension_spec() == cluster_dimension,
    {
        let slab_size = div_up(elements.len(), number_of_clusters_on_axis);
        proof {
            let n = elements@.len() as int;
            let k = number_of_clusters_on_axis as int;
            assert(n > 0 ==> (n + k - 1) / k >= 1) by (nonlinear_arith)
                requires
                    k >= 1,
                    n >= 0,
            ;
        }
        ClusterGroupIterator { remaining: elements, slab_size, cluster_dimension }
    }

    /// The axis along which the objects are grouped.
    pub fn cluster_dimension(&self) -> (r: usize)
        ensures
            r == self.cluster_dimension_spec(),
            r < PointOf::<T>::DIMENSIONS,
    {
        proof {
            use_type_invariant(self);
        }
        self.cluster_dimension
    }

    /// The next group: the objects that are left where they fit one group,
    /// else as many as a group holds, none of them with a larger lower bound
    /// than one that stays. `None` where no object is left.
    pub fn next(&mut self) -> (r: Option<Vec<T>>)
        ensures
            final(self).slab_size_spec() == old(self).slab_size_spec(),
            final(self).cluster_dimension_spec() == old(self).cluster_dimension_spec(),
            r is None <==> old(self).remaining_spec().len() == 0,
            r is None ==> final(self).remaining_spec().len() == 0,
            r is Some ==> {
                let slab = r->0@;
                &&& slab.len() >= 1
                &&& slab.len() == if old(self).remaining_spec().len() <= old(self).slab_size_spec() {
                    old(self).remaining_spec().len()
                } else {
                    old(self).slab_size_spec() as nat
                }
                &&& (slab + final(self).remaining_spec()).to_multiset() == old(
                    self,
                ).remaining_spec().to_multiset()
                &&& partitioned(slab, final(self).remaining_spec(), old(self).cluster_dimension_spec())
            },
    {
        proof {
            use_type_invariant(&*self);
        }
        let len = self.remaining.len();
        if len == 0 {
            None
        } else if len <= self.slab_size {
            let mut slab = Vec::new();
            core::mem::swap(&mut self.remaining, &mut slab);
            assert(slab@ + self.remaining@ =~= slab@);
            Some(slab)
        } else {
            let slab_axis = self.cluster_dimension;
            let ghost before = self.remaining@;
            let mut slab = Vec::new();
            core::mem::swap(&mut self.remaining, &mut slab);
            partition_envelopes(slab_axis, &mut slab, self.slab_size);
            let ghost arranged = slab@;
            proof {
                crate::node::lemma_permutation_len(before, arranged);
            }
            let mut off_split = slab.split_off(self.slab_size);
            core::mem::swap(&mut self.remaining, &mut off_split);
            proof {
                assert(slab@ + self.remaining@ =~= arranged);
            }
            Some(slab)
        }
    }
}

/// `base` to the power of `exponent`, where it fits.
pub fn power_capped(base: usize, exponent: usize) -> (r: Option<usize>)
    ensures
        r is Some ==> r->0 == pow(base as int, exponent as nat),
        r is None ==> pow(base as int, exponent as nat) > usize::MAX,
{
    let mut acc: usize = 1;
    let mut i: usize = 0;
    proof {
        lemma_pow0(base as int);
    }
    while i < exponent
        invariant
            i <= exponent,
            acc == pow(base as int, i as nat),
        decreases exponent - i,
    {
        proof {
            reveal(pow);
            assert(pow(base as int, (i + 1) as nat) == base * pow(base as int, i as nat));
        }
        match acc.checked_mul(base) {
            Some(next) => {
                assert(acc * base == base * acc) by (nonlinear_arith);
                acc = next;
            },
            None => {
                proof {
                    assert(acc * base == base * acc) by (nonlinear_arith);
                    assert(base >= 1) by (nonlinear_arith)
                        requires
                            acc * base > usize::MAX,
                            acc >= 0,
                            base >= 0,
                    ;
                    lemma_pow_increases(base as nat, (i + 1) as nat, exponent as nat);
                }
                return None;
            },
        }
        i = i + 1;
    }
    Some(acc)
}

/// The number of subtrees of a node of a tree of the given depth that holds
/// `number_of_elements` objects: the number of objects by the number that a
/// subtree can hold, rounded up.
pub open spec fn number_of_clusters(number_of_elements: int, max_size: int, depth: int) -> int {
    div_up_spec(number_of_elements, pow(max_size, (depth - 1) as nat))
}

/// `k` is the smallest number, not zero, whose power to `dimensions` reaches
/// `clusters`.
pub open spec fn is_clusters_on_axis(k: int, clusters: int, dimensions: nat) -> bool {
    &&& k >= 1
    &&& pow(k, dimensions) >= clusters
    &&& k >= 2 ==> pow(k - 1, dimensions) < clusters
}

/// The number of clusters along each axis that a node of a tree of `depth`
/// levels with `number_of_elements` objects is divided into: the root, of
/// the degree of the dimensions, of the number of its subtrees, rounded up.
pub fn calculate_number_of_clusters_on_axis<T: RTreeObject>(
    number_of_elements: usize,
    depth: usize,
    params: &Params,
) -> (r: usize)
    requires
        params.wf(),
        depth >= 1,
        number_of_elements >= 1,
    ensures
        is_clusters_on_axis(
            r as int,
            number_of_clusters(
                number_of_elements as int,
                params.max_size_spec() as int,
                depth as int,
            ),
            PointOf::<T>::DIMENSIONS as nat,
        ),
{
    let ghost subtree = pow(params.max_size_spec() as int, (depth - 1) as nat);
    proof {
        vstd::arithmetic::power::lemma_pow_positive(
            params.max_size_spec() as int,
            (depth - 1) as nat,
        );
    }
    let clusters = match power_capped(params.max_size(), depth - 1) {
        Some(n_subtree) => div_up(number_of_elements, n_subtree),
        None => {
            proof {
                let n = number_of_elements as int;
                assert((n + subtree - 1) / subtree == 1) by (nonlinear_arith)
                    requires
                        1 <= n < subtree,
                ;
            }
            1
        },
    };
    let mut k: usize = 1;
    proof {
        vstd::arithmetic::power::lemma_pow_positive(1, PointOf::<T>::DIMENSIONS as nat);
        let n = number_of_elements as int;
        assert((n + subtree - 1) / subtree >= 1) by (nonlinear_arith)
            requires
                1 <= n,
                1 <= subtree,
        ;
    }
    assert(clusters == number_of_clusters(
        number_of_elements as int,
        params.max_size_spec() as int,
        depth as int,
    ));
    loop
        invariant
            1 <= k <= clusters,
            clusters >= 1,
            clusters == number_of_clusters(
                number_of_elements as int,
                params.max_size_spec() as int,
                depth as int,
            ),
            k >= 2 ==> pow(k - 1, PointOf::<T>::DIMENSIONS as nat) < clusters,
        decreases clusters - k,
    {
        match power_capped(k, PointOf::<T>::DIMENSIONS) {
            Some(p) => {
                if p >= clusters {
                    return k;
                }
            },
            None => {
                return k;
            },
        }
        proof {
            // k^D < clusters, and k <= k^D, so k + 1 <= clusters.
            PointOf::<T>::lemma_dimensions();
            vstd::arithmetic::power::lemma_pow1(k as int);
            lemma_pow_increases(k as nat, 1, PointOf::<T>::DIMENSIONS as nat);
        }
        k = k + 1;
    }
}

/// The depth of a tree of `number_of_elements` objects whose nodes hold
/// `max_size` children: the smallest number of levels that can hold them.
pub open spec fn is_tree_depth(depth: int, number_of_elements: int, max_size: int) -> bool {
    &&& depth >= 0
    &&& pow(max_size, depth as nat) >= number_of_elements
    &&& depth >= 1 ==> pow(max_size, (depth - 1) as nat) < number_of_elements
}

/// The depth of a tree of `number_of_elements` objects.
pub fn tree_depth(number_of_elements: usize, max_size: usize) -> (r: usize)
    requires
        max_size >= 2,
    ensures
        is_tree_depth(r as int, number_of_elements as int, max_size as int),
        r <= number_of_elements,
{
    let mut depth: usize = 0;
    let mut capacity: usize = 1;
    proof {
        lemma_pow0(max_size as int);
    }
    while capacity < number_of_elements
        invariant
            max_size >= 2,
            capacity == pow(max_size as int, depth as nat),
            depth >= 1 ==> pow(max_size as int, (depth - 1) as nat) < number_of_elements,
            depth < capacity,
            capacity >= number_of_elements ==> depth <= number_of_elements,
        decreases
            if capacity < number_of_elements {
                number_of_elements - capacity
            } else {
                0
            },
    {
        proof {
            reveal(pow);
            assert(pow(max_size as int, (depth + 1) as nat) == max_size * pow(
                max_size as int,
                depth as nat,
            ));
            assert(capacity * max_size == max_size * capacity) by (nonlinear_arith);
            assert(capacity * max_size >= 2 * capacity) by (nonlinear_arith)
                requires
                    max_size >= 2,
                    capacity >= 0,
            ;
        }
        match capacity.checked_mul(max_size) {
            Some(next) => {
                assert(next > capacity);
                capacity = next;
                depth = depth + 1;
            },
            None => {
                return depth + 1;
            },
        }
    }
    depth
}

} // verus!
