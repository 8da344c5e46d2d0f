//! A generational, branching execution engine.
//!
//! A population of processes, each carrying a state value and a shared,
//! immutable script of instruction steps, is advanced one full script pass
//! ("tick") at a time.  A step may emit several branch hints; emitting more
//! than one forks the process into sibling continuations, each pursuing one
//! hint through the remaining steps of the same tick.  Between ticks an
//! ordering-based selection ("prune") bounds population growth by keeping an
//! elite band plus a stride-sampled remainder.

pub mod manager;
pub mod model;
pub mod process;
pub mod script;
pub mod selection;
pub mod tick;
