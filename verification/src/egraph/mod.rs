//! An e-graph read two ways: walked as a graph and joined as a database.

pub mod agreement;
pub mod backtrack;
pub mod binary_join;
pub mod cost_laws;
pub mod egraph;
pub mod nodes;
pub mod pattern;
pub mod gen;
pub mod join;
pub mod relational;
pub mod semi_naive;
