//! Random maze generation with a connectivity guarantee, and an IDA* solver
//! over the generated topology.
pub mod maze;
pub mod rng;
pub mod solver;
