//! Small data utilities: a box-layout solver, a dependency-ordering graph,
//! fixed-length integer vectors, and a few pseudo-random number generators,
//! each with a machine-checked contract.

pub mod color;
pub mod dag;
pub mod lay;
pub mod math;
pub mod point;
pub mod rng;
