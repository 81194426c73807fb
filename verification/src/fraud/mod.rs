//! Fraud and identity: review graphs with camouflaged fraud, dense-block
//! detection, and record linkage.

pub mod er;
pub mod fraud_laws;
pub mod fraudar;
pub mod peel_queue;
pub mod review_graph;
