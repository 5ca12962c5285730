//! Markov-chain machinery: update bookkeeping, kernels, the run loop and the
//! reduction of independent chains.
use vstd::prelude::*;

pub mod kernel;
pub mod sets;
pub mod traits;
pub mod names;
pub mod parallel;
pub mod run;

pub use kernel::MetropolisKernel;
pub use sets::{step_update, SingleUpdateSet};
pub use run::{
    run_typed, run_typed_with_callbacks, NoopCallbacks, NullMeasurement, SimulationCtx,
    SimulationParams, SimulationStats,
};
pub use traits::{
    Kernel, Measurement, RunCallbacks, StepOutcome, SteppingUpdateSet, Update, UpdateSet,
    UpdateStats, Verdict,
};

verus! {

} // verus!
