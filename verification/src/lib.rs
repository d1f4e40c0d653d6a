//! Verified skyline (Pareto frontier) computation.
//!
//! A point belongs to the skyline of a collection when no other point is at
//! least as large in every dimension and strictly larger in at least one.
//! This crate provides the dominance test, a quadratic serial elimination
//! algorithm, and a partition/filter/merge pipeline whose result is proved
//! bit-for-bit identical to the serial algorithm for every worker count.

pub mod counting;
pub mod dominance;
pub mod laws;
pub mod parallel;
pub mod partition;
pub mod points;
pub mod serial;
