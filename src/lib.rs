//! Memoization of pure functions with constraint-checked reuse.
//!
//! A [`cache::Cache`] maps 64-bit digests of an input's key to the output
//! and constraint produced for it. A later call reuses the output whenever
//! the new input has the same digest and satisfies the stored constraint.

pub mod track;
pub mod cache;
pub mod memo;
pub mod laws;
