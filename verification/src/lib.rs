//! Verified core of zero-knowledge Matrix room joins: star-graph trace
//! compilation, Merkle commitments over the trace, topological ordering and
//! state fingerprints.
pub mod decimal;
pub mod execution;
pub mod field;
pub mod full_spec;
pub mod guest;
pub mod hybrid;
pub mod lean;
pub mod merkle;
pub mod permutation;
pub mod prover;
pub mod star_graph;
pub mod state;
pub mod wasm_client;

use vstd::prelude::*;

verus! {

/// The entry point that ties proving and verifying together for embedders.
pub struct RumaZkFacade;

} // verus!
