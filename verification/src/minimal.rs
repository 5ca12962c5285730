//! Modes and run parameters of the minimal benchmark driver.
use vstd::prelude::*;

use crate::mc::SimulationParams;

verus! {

/// Steps between measurements in the benchmark driver.
pub const STEPS_PER_CYCLE: u64 = 5;

/// Cycles between progress polls during the measured phase.
pub const PROGRESS_CYCLES_PER_CHECK: u64 = 100_000;

/// Benchmark mode: every update with measurements, or one update and none.
#[derive(Clone, Copy, Debug, PartialEq, Eq, Structural)]
pub enum Mode {
    Full,
    Bare,
}

impl Mode {
    /// The mode named by `value`, if any.
    pub fn parse(value: &str) -> (r: Option<Mode>)
        ensures
            value@ == "full"@ <==> r == Some(Mode::Full),
            value@ == "bare"@ <==> r == Some(Mode::Bare),
            r is None <==> (value@ != "full"@ && value@ != "bare"@),
    {
        proof {
            reveal_strlit("full");
            reveal_strlit("bare");
            assert("full"@[0] != "bare"@[0]);
        }
        let given = String::from_str(value);
        if given == String::from_str("full") {
            Some(Mode::Full)
        } else if given == String::from_str("bare") {
            Some(Mode::Bare)
        } else {
            None
        }
    }

    /// The name of the mode.
    pub fn as_str(self) -> (r: &'static str)
        ensures
            self == Mode::Full ==> r@ == "full"@,
            self == Mode::Bare ==> r@ == "bare"@,
    {
        match self {
            Mode::Full => "full",
            Mode::Bare => "bare",
        }
    }
}

/// Parameters of an unmonitored phase: no checkpoints within any realistic run.
pub fn params(max_steps: u64) -> (r: SimulationParams)
    ensures
        r == (SimulationParams { max_steps, steps_per_cycle: STEPS_PER_CYCLE, cycles_per_check: u64::MAX }),
{
    SimulationParams { max_steps, steps_per_cycle: STEPS_PER_CYCLE, cycles_per_check: u64::MAX }
}

/// Parameters of the measured phase, which polls progress at checkpoints.
pub fn measured_params(max_steps: u64) -> (r: SimulationParams)
    ensures
        r == (SimulationParams {
            max_steps,
            steps_per_cycle: STEPS_PER_CYCLE,
            cycles_per_check: PROGRESS_CYCLES_PER_CHECK,
        }),
{
    SimulationParams { cycles_per_check: PROGRESS_CYCLES_PER_CHECK, ..params(max_steps) }
}

} // verus!
