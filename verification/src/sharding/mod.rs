//! Where keys and vertices go: placement by hash, consistent-hash rings, and
//! graph partitions.

pub mod graphs;
pub mod hashring;
pub mod mixing_laws;
pub mod partition_laws;
pub mod partitioner;
pub mod placement;
