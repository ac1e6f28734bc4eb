//! A layering engine for functional graphs: every node has at most one
//! outgoing edge, and a breadth-first sweep from a set of source nodes stamps
//! each reached node with the step at which the frontier arrived there.
//!
//! The mathematical model of the sweep lives in [`model`], the executable
//! engine in [`engine`], and the relations between the engine's entry points
//! in [`laws`].

pub mod engine;
pub mod laws;
pub mod model;
