//! Decoding-graph construction for tailored (biased-noise) surface codes.
//!
//! Given a lattice of syndrome-measurement events and a per-position physical
//! error model, the library derives which pairs (or four-syndrome clusters) of
//! syndromes are jointly caused by a single physical error, assigns each such
//! relationship an exact probability and a weight, and elects a single
//! representative edge when several physical errors could explain the same
//! pair. The resulting graph is the input of a minimum-weight matching
//! decoder.
//!
//! Probabilities are exact rational numbers, so the election rules
//! (probability combination, argmax tie-breaking, edge symmetry) are proved
//! rather than tested against floating-point tolerances.

pub mod prob;
pub mod weight;
pub mod types;
pub mod simulator;
pub mod noise_model;
pub mod tailored_model_graph;
pub mod util;
pub mod config;
