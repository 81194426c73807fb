//! Overload control: retry budgets, admission by priority, and a simulator to
//! try them on.

pub mod admission;
pub mod admission_laws;
pub mod sim;
pub mod sim_laws;
pub mod tokenbucket;
