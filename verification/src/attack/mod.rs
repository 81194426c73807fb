//! Identity graphs: attack paths to tier zero, the nodes that cut them, and
//! group-membership checks.

pub mod ad_graph;
pub mod ad_instance;
pub mod ad_laws;
pub mod authz;
pub mod chokepoint;
pub mod dominators;
