//! Recommendations over an interaction graph, and links that are about to form.

pub mod bipartite;
pub mod collab;
pub mod linkpred;
pub mod pixie;
pub mod recs;
pub mod recs_laws;
