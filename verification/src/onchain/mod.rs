//! A ledger of unspent outputs: clustering its addresses and tracing stolen
//! value through it.

pub mod chain;
pub mod cluster_laws;
pub mod clustering;
pub mod fifo_laws;
pub mod instance;
pub mod instance_laws;
pub mod union_find;
pub mod taint;
pub mod taint_laws;
