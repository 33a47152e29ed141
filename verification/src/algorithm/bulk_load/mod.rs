//! Bulk loading: building a tree from all of its objects at once.

pub mod bulk_load_sequential;
pub mod cluster_group_iterator;
pub mod level_partitioning;

pub use self::bulk_load_sequential::bulk_load_sequential;
