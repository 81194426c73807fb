//! Verified building blocks of graph and query workloads: attack graphs,
//! value tracing, e-graphs, overload control, sharding and the rest, each in a
//! module of its own.

pub mod attack;
pub mod debugging;
pub mod distquery;
pub mod double;
pub mod egraph;
pub mod fraud;
pub mod graph;
pub mod graphrag;
pub mod math;
pub mod onchain;
pub mod ops;
pub mod overload;
pub mod rng;
pub mod sharding;
pub mod social;
pub mod sorting;
pub mod text;
pub mod zipf;
