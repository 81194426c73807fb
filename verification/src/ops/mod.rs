//! Service dependency graphs: a fault to localize, the traces to do it with,
//! and what sampling leaves of them.

pub mod inference;
pub mod inference_laws;
pub mod ranking;
pub mod rca;
pub mod rca_laws;
pub mod sampling;
pub mod services;
pub mod services_laws;
