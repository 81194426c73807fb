//! Latency measurement: histograms, slow logs, and two ways to load a server.

pub mod histogram;
pub mod rank_laws;
pub mod slowlog;
pub mod workload;
