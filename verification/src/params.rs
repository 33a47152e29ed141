//! The parameters that fix the sizes of the tree's nodes.

use vstd::prelude::*;

verus! {

/// The sizes of the nodes of a tree.
///
/// A node other than the root holds at least `min_size` and at most
/// `max_size` children. A node that overflows for the first time during an
/// insertion gives up `reinsertion_count` children, which are inserted anew.
#[derive(Clone, Copy, Debug, PartialEq, Eq)]
pub struct Params {
    min_size: usize,
    max_size: usize,
    reinsertion_count: usize,
}

/// Whether the three sizes can be the parameters of a tree.
pub open spec fn valid_sizes(min_size: int, max_size: int, reinsertion_count: int) -> bool {
    &&& 4 <= max_size < usize::MAX
    &&& 1 <= min_size <= (max_size + 1) / 2
    &&& 0 <= reinsertion_count < max_size - min_size
}

impl Params {
    /// The least number of children of a node other than the root.
    pub closed spec fn min_size_spec(&self) -> usize {
        self.min_size
    }

    /// The greatest number of children of a node.
    pub closed spec fn max_size_spec(&self) -> usize {
        self.max_size
    }

    /// The number of children that a node gives up for reinsertion.
    pub closed spec fn reinsertion_count_spec(&self) -> usize {
        self.reinsertion_count
    }

    /// The sizes are valid.
    pub open spec fn wf(&self) -> bool {
        valid_sizes(
            self.min_size_spec() as int,
            self.max_size_spec() as int,
            self.reinsertion_count_spec() as int,
        )
    }

    /// Whether [`Params::new`] accepts the three sizes.
    pub fn is_valid(min_size: usize, max_size: usize, reinsertion_count: usize) -> (r: bool)
        ensures
            r == valid_sizes(min_size as int, max_size as int, reinsertion_count as int),
    {
        max_size >= 4 && max_size < usize::MAX && min_size > 0 && min_size <= (max_size + 1) / 2
            && reinsertion_count < max_size - min_size
    }

    /// The parameters with the given sizes.
    pub fn new(min_size: usize, max_size: usize, reinsertion_count: usize) -> (r: Self)
        requires
            valid_sizes(min_size as int, max_size as int, reinsertion_count as int),
        ensures
            r.wf(),
            r.min_size_spec() == min_size,
            r.max_size_spec() == max_size,
            r.reinsertion_count_spec() == reinsertion_count,
    {
        Params { min_size, max_size, reinsertion_count }
    }

    /// The least number of children of a node other than the root.
    pub fn min_size(&self) -> (r: usize)
        ensures
            r == self.min_size_spec(),
    {
        self.min_size
    }

    /// The greatest number of children of a node.
    pub fn max_size(&self) -> (r: usize)
        ensures
            r == self.max_size_spec(),
    {
        self.max_size
    }

    /// The number of children that an overflowing node gives up for
    /// reinsertion.
    pub fn reinsertion_count(&self) -> (r: usize)
        ensures
            r == self.reinsertion_count_spec(),
    {
        self.reinsertion_count
    }
}

impl Default for Params {
    /// Nodes of three to six children, two of which are reinserted.
    fn default() -> (r: Self)
        ensures
            r.wf(),
            r.min_size_spec() == 3,
            r.max_size_spec() == 6,
            r.reinsertion_count_spec() == 2,
    {
        Params { min_size: 3, max_size: 6, reinsertion_count: 2 }
    }
}

} // verus!
