//! Sequential and fork-join parallel variants of a few classic workloads,
//! each proved to compute the same result as its sequential counterpart.
mod parallel;
pub mod reduce;
pub mod sorting;
pub mod stencil;
pub mod words;
