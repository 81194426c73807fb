//! Memory as a graph: path-finding questions over a knowledge graph, and facts
//! with two timelines.

pub mod kg;
pub mod ppr;
pub mod ppr_laws;
pub mod temporal;
pub mod temporal_laws;
