//! The algorithms of the tree: searches, insertion, removal and bulk loading.

pub mod bulk_load;
pub mod intersection_iterator;
pub mod iterators;
pub mod nearest_neighbor;
pub mod node_stack;
pub mod removal;
pub mod rstar;
pub mod selection_functions;
pub mod small_heap;
