//! Cycle-count microbenchmark engine: a tagged store of benchmark bodies,
//! and the filter, run, group, transpose and compare stages over it.

pub mod label;
pub mod text;
pub mod bens;
pub mod error;
pub mod set;
pub mod sort;
pub mod run;
pub mod group;
pub mod compare;
pub mod query;
pub mod timer;
pub mod itr;
pub mod laws;
