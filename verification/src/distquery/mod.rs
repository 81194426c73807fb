//! Distributed query execution: the exchange operator, the tail of a fan-out,
//! and hedged requests against it.

pub mod exchange;
pub mod exchange_laws;
pub mod fanout;
pub mod hedge;
