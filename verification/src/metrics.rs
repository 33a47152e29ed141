//! Counters of what insertions do.

use vstd::prelude::*;

verus! {

/// Counts the steps that insertions take.
#[derive(Debug)]
pub struct RTreeMetrics {
    pub insertions: u64,
    pub reinsertions: u64,
    pub choose_subtree: u64,
    pub choose_subtree_outsiders: u64,
    pub choose_subtree_leaves: u64,
    pub recursive_insertions: u64,
    pub splits: u64,
    pub resolve_overflow: u64,
    pub resolve_overflow_overflows: u64,
}

impl RTreeMetrics {
    /// All counters at zero.
    pub fn new() -> (r: Self)
        ensures
            r.insertions == 0,
            r.reinsertions == 0,
            r.choose_subtree == 0,
            r.choose_subtree_outsiders == 0,
            r.choose_subtree_leaves == 0,
            r.recursive_insertions == 0,
            r.splits == 0,
            r.resolve_overflow == 0,
            r.resolve_overflow_overflows == 0,
    {
        RTreeMetrics {
            insertions: 0,
            reinsertions: 0,
            choose_subtree: 0,
            choose_subtree_outsiders: 0,
            choose_subtree_leaves: 0,
            recursive_insertions: 0,
            splits: 0,
            resolve_overflow: 0,
            resolve_overflow_overflows: 0,
        }
    }

    /// Counts an insertion.
    pub fn increment_insertions(&mut self)
        requires
            old(self).insertions < u64::MAX,
        ensures
            *final(self) == (RTreeMetrics { insertions: (old(self).insertions + 1) as u64, ..*old(self) }),
    {
        self.insertions += 1;
    }

    /// Counts a reinsertion.
    pub fn increment_reinsertions(&mut self)
        requires
            old(self).reinsertions < u64::MAX,
        ensures
            *final(self) == (RTreeMetrics {
                reinsertions: (old(self).reinsertions + 1) as u64,
                ..*old(self)
            }),
    {
        self.reinsertions += 1;
    }

    /// Counts a choice of a subtree.
    pub fn increment_choose_subtree(&mut self)
        requires
            old(self).choose_subtree < u64::MAX,
        ensures
            *final(self) == (RTreeMetrics {
                choose_subtree: (old(self).choose_subtree + 1) as u64,
                ..*old(self)
            }),
    {
        self.choose_subtree += 1;
    }

    /// Counts a choice of a subtree for an object that none contains.
    pub fn increment_choose_subtree_outsiders(&mut self)
        requires
            old(self).choose_subtree_outsiders < u64::MAX,
        ensures
            *final(self) == (RTreeMetrics {
                choose_subtree_outsiders: (old(self).choose_subtree_outsiders + 1) as u64,
                ..*old(self)
            }),
    {
        self.choose_subtree_outsiders += 1;
    }

    /// Counts a choice among parents of leaves.
    pub fn increment_choose_subtree_leaves(&mut self)
        requires
            old(self).choose_subtree_leaves < u64::MAX,
        ensures
            *final(self) == (RTreeMetrics {
                choose_subtree_leaves: (old(self).choose_subtree_leaves + 1) as u64,
                ..*old(self)
            }),
    {
        self.choose_subtree_leaves += 1;
    }

    /// Counts a split.
    pub fn increment_splits(&mut self)
        requires
            old(self).splits < u64::MAX,
        ensures
            *final(self) == (RTreeMetrics { splits: (old(self).splits + 1) as u64, ..*old(self) }),
    {
        self.splits += 1;
    }

    /// Counts a step of an insertion down the tree.
    pub fn increment_recursive_insertions(&mut self)
        requires
            old(self).recursive_insertions < u64::MAX,
        ensures
            *final(self) == (RTreeMetrics {
                recursive_insertions: (old(self).recursive_insertions + 1) as u64,
                ..*old(self)
            }),
    {
        self.recursive_insertions += 1;
    }

    /// Counts a look at a node that may hold too many children.
    pub fn increment_resolve_overflow(&mut self)
        requires
            old(self).resolve_overflow < u64::MAX,
        ensures
            *final(self) == (RTreeMetrics {
                resolve_overflow: (old(self).resolve_overflow + 1) as u64,
                ..*old(self)
            }),
    {
        self.resolve_overflow += 1;
    }

    /// Counts a node that holds too many children.
    pub fn increment_resolve_overflow_overflows(&mut self)
        requires
            old(self).resolve_overflow_overflows < u64::MAX,
        ensures
            *final(self) == (RTreeMetrics {
                resolve_overflow_overflows: (old(self).resolve_overflow_overflows + 1) as u64,
                ..*old(self)
            }),
    {
        self.resolve_overflow_overflows += 1;
    }
}

} // verus!
