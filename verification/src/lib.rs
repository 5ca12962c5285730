//! Verified core of a Markov-chain Monte Carlo framework: reproducible per-chain
//! seeding, the counter-based Philox stream, the Metropolis bookkeeping, the run
//! loop and the reduction of independent chains; and, for diagrammatic Monte
//! Carlo, the fixed-capacity linked topology of a Feynman diagram with its phonon
//! arcs and phonon counts, packed chain after chain for a device kernel.
use vstd::prelude::*;

pub mod arcs;
pub mod batched;
pub mod config;
pub mod error;
pub mod flat;
pub mod gpu_state;
pub mod laws;
pub mod mc;
pub mod merge;
pub mod minimal;
pub mod philox;
pub mod random;
pub mod spike;

pub use error::{Result, RmcError};
pub use merge::Merge;

verus! {

} // verus!
