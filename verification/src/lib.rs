//! A small single-threaded, in-memory map-reduce evaluator, together with the
//! generic vector helper that accompanies it.

pub mod generics;
pub mod model;
pub mod phases;
pub mod evaluator;
pub mod laws;
pub mod wordcount;
