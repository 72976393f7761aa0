//! Random walks of ants over a directed graph of colonies.
//!
//! Two ants that end a tick alone together on a colony destroy it and die.
//! The engine is deterministic: every random choice is drawn from a generator
//! whose 64-bit state is part of the simulation's state.

pub mod graph;
pub mod laws;
pub mod model;
pub mod proofs;
pub mod report;
pub mod rng;
pub mod sim;
pub mod text;
