use std::cell::Cell;
use std::rc::Rc;

use rand::Rng;
use rmc::mc::{
    run_typed, run_typed_with_callbacks, Measurement, MetropolisKernel, RunCallbacks,
    SimulationCtx, SimulationParams, SingleUpdateSet, SteppingUpdateSet, Update, UpdateSet,
    Verdict,
};
use rmc::random::{ChainId, SeedSource};

/// Metropolis acceptance of a proposal with weight `probability`.
fn metropolis<R: Rng>(probability: f64, rng: &mut R) -> Verdict {
    if probability < 0.0 {
        Verdict::Impossible
    } else if probability >= 1.0 || rng.gen::<f64>() < probability {
        Verdict::Accepted
    } else {
        Verdict::Rejected
    }
}

#[derive(Clone)]
struct IncrementUpdate {
    value: Rc<Cell<i32>>,
}

impl<R: Rng> Update<(), R> for IncrementUpdate {
    fn attempt(&mut self, _state: &mut (), rng: &mut R) -> Verdict {
        metropolis(1.0, rng)
    }

    fn accept(&mut self, _state: &mut ()) {
        self.value.set(self.value.get() + 1);
    }

    fn reject(&mut self, _state: &mut ()) {}
}

#[derive(Clone)]
struct CounterMeasurement {
    count: Rc<Cell<i32>>,
}

impl Measurement<()> for CounterMeasurement {
    type Output = ();

    fn measure(&mut self, _state: &()) {
        self.count.set(self.count.get() + 1);
    }

    fn finish(self) -> Self::Output {}
}

#[derive(Clone)]
struct TypedCounterMeasurement {
    count: u64,
}

impl Measurement<()> for TypedCounterMeasurement {
    type Output = u64;

    fn measure(&mut self, _state: &()) {
        self.count += 1;
    }

    fn finish(self) -> Self::Output {
        self.count
    }
}

#[test]
fn run_typed_executes_metropolis_kernel() {
    let value = Rc::new(Cell::new(0));
    let measurement_count = Rc::new(Cell::new(0));
    let updates = SingleUpdateSet::new(IncrementUpdate {
        value: Rc::clone(&value),
    });
    let mut kernel = MetropolisKernel::new(updates);
    let mut rng = SeedSource::new(123).rng_for(ChainId(0));
    let (_state, stats, ()) = run_typed(
        (),
        &mut rng,
        &mut kernel,
        CounterMeasurement {
            count: Rc::clone(&measurement_count),
        },
        SimulationParams {
            max_steps: 10,
            steps_per_cycle: 2,
            cycles_per_check: 1,
        },
    )
    .unwrap();

    assert_eq!(value.get(), 10);
    assert_eq!(measurement_count.get(), 5);
    assert_eq!(stats.steps_done, 10);
    assert_eq!(stats.cycles_done, 5);

    assert_eq!(kernel.updates().stats()[0].nprops, 10);
    assert_eq!(kernel.updates().stats()[0].naccs, 10);
    assert_eq!(kernel.updates().stats()[0].nimps, 0);
}

#[derive(Default)]
struct StopAfterTwoCycles;

impl RunCallbacks<SimulationCtx> for StopAfterTwoCycles {
    fn on_step(&mut self, _ctx: &SimulationCtx) {}

    fn on_cycle(&mut self, _ctx: &SimulationCtx) {}

    fn on_checkpoint(&mut self, _ctx: &SimulationCtx) {}

    fn stop_when(&mut self, ctx: &SimulationCtx) -> bool {
        ctx.cycles_done >= 2
    }
}

#[test]
fn run_callbacks_can_stop_the_loop() {
    let value = Rc::new(Cell::new(0));
    let updates = SingleUpdateSet::new(IncrementUpdate {
        value: Rc::clone(&value),
    });
    let mut kernel = MetropolisKernel::new(updates);
    let mut rng = SeedSource::new(123).rng_for(ChainId(0));
    let mut callbacks = StopAfterTwoCycles;

    let (_state, stats, ()) = run_typed_with_callbacks(
        (),
        &mut rng,
        &mut kernel,
        CounterMeasurement {
            count: Rc::new(Cell::new(0)),
        },
        SimulationParams {
            max_steps: 100,
            steps_per_cycle: 3,
            cycles_per_check: 1,
        },
        &mut callbacks,
    )
    .unwrap();

    assert_eq!(stats.steps_done, 6);
    assert_eq!(stats.cycles_done, 2);
    assert_eq!(value.get(), 6);
}

#[test]
fn run_typed_returns_measurement_output_by_ownership() {
    let value = Rc::new(Cell::new(0));
    let updates = SingleUpdateSet::new(IncrementUpdate {
        value: Rc::clone(&value),
    });
    let mut kernel = MetropolisKernel::new(updates);
    let mut rng = SeedSource::new(123).rng_for(ChainId(0));

    let (_state, stats, measurement_count) = run_typed(
        (),
        &mut rng,
        &mut kernel,
        TypedCounterMeasurement { count: 0 },
        SimulationParams {
            max_steps: 7,
            steps_per_cycle: 3,
            cycles_per_check: 1,
        },
    )
    .unwrap();

    assert_eq!(value.get(), 7);
    assert_eq!(stats.steps_done, 7);
    assert_eq!(stats.cycles_done, 3);
    assert_eq!(measurement_count, 3);
}

#[test]
fn run_rejects_zero_steps_per_cycle() {
    let updates = SingleUpdateSet::new(IncrementUpdate {
        value: Rc::new(Cell::new(0)),
    });
    let mut kernel = MetropolisKernel::new(updates);
    let mut rng = SeedSource::new(123).rng_for(ChainId(0));

    let err = match run_typed(
        (),
        &mut rng,
        &mut kernel,
        TypedCounterMeasurement { count: 0 },
        SimulationParams {
            max_steps: 10,
            steps_per_cycle: 0,
            cycles_per_check: 1,
        },
    ) {
        Ok(_) => panic!("zero steps per cycle should fail"),
        Err(err) => err,
    };

    assert_eq!(err.text(), "invalid argument: steps_per_cycle must be > 0");
}

#[derive(Clone)]
struct CountingUpdate {
    accepted: Rc<Cell<i32>>,
    rejected: Rc<Cell<i32>>,
    probability: f64,
}

impl<R: Rng> Update<(), R> for CountingUpdate {
    fn attempt(&mut self, _state: &mut (), rng: &mut R) -> Verdict {
        metropolis(self.probability, rng)
    }

    fn accept(&mut self, _state: &mut ()) {
        self.accepted.set(self.accepted.get() + 1);
    }

    fn reject(&mut self, _state: &mut ()) {
        self.rejected.set(self.rejected.get() + 1);
    }
}

#[test]
fn run_typed_works_with_static_single_update_set() {
    let accepted = Rc::new(Cell::new(0));
    let rejected = Rc::new(Cell::new(0));
    let updates = SingleUpdateSet::new(CountingUpdate {
        accepted: Rc::clone(&accepted),
        rejected: Rc::clone(&rejected),
        probability: 1.0,
    });
    let mut kernel = MetropolisKernel::new(updates);
    let mut rng = SeedSource::new(123).rng_for(ChainId(0));

    let (_state, stats, measurement_count) = run_typed(
        (),
        &mut rng,
        &mut kernel,
        TypedCounterMeasurement { count: 0 },
        SimulationParams {
            max_steps: 8,
            steps_per_cycle: 4,
            cycles_per_check: 1,
        },
    )
    .unwrap();

    assert_eq!(accepted.get(), 8);
    assert_eq!(rejected.get(), 0);
    assert_eq!(stats.steps_done, 8);
    assert_eq!(measurement_count, 2);
    assert_eq!(kernel.updates().stats()[0].nprops, 8);
    assert_eq!(kernel.updates().stats()[0].naccs, 8);
    assert_eq!(kernel.updates().stats()[0].nimps, 0);
}

#[test]
fn static_single_update_set_tracks_rejections_and_impossible_updates() {
    let accepted = Rc::new(Cell::new(0));
    let rejected = Rc::new(Cell::new(0));
    let mut rng = SeedSource::new(123).rng_for(ChainId(0));

    let mut rejected_set = SingleUpdateSet::new(CountingUpdate {
        accepted: Rc::clone(&accepted),
        rejected: Rc::clone(&rejected),
        probability: 0.0,
    });
    let rejected_outcome = rejected_set.select_and_step(&mut (), &mut rng).unwrap();
    assert!(!rejected_outcome.accepted);
    assert!(!rejected_outcome.impossible);
    assert_eq!(accepted.get(), 0);
    assert_eq!(rejected.get(), 1);
    assert_eq!(rejected_set.stats()[0].nprops, 1);
    assert_eq!(rejected_set.stats()[0].naccs, 0);
    assert_eq!(rejected_set.stats()[0].nimps, 0);

    let mut impossible_set = SingleUpdateSet::new(CountingUpdate {
        accepted: Rc::clone(&accepted),
        rejected: Rc::clone(&rejected),
        probability: -1.0,
    });
    let impossible_outcome = impossible_set.select_and_step(&mut (), &mut rng).unwrap();
    assert!(!impossible_outcome.accepted);
    assert!(impossible_outcome.impossible);
    assert_eq!(accepted.get(), 0);
    assert_eq!(rejected.get(), 2);
    assert_eq!(impossible_set.stats()[0].nprops, 1);
    assert_eq!(impossible_set.stats()[0].naccs, 0);
    assert_eq!(impossible_set.stats()[0].nimps, 1);
}

struct RandomWalkUpdate {
    position: Rc<Cell<i32>>,
    pending_delta: i32,
}

impl RandomWalkUpdate {
    fn new(position: Rc<Cell<i32>>) -> Self {
        Self {
            position,
            pending_delta: 0,
        }
    }
}

impl<R: Rng> Update<(), R> for RandomWalkUpdate {
    fn attempt(&mut self, _state: &mut (), rng: &mut R) -> Verdict {
        self.pending_delta = if rng.next_u64() & 1 == 0 { 1 } else { -1 };
        metropolis(1.0, rng)
    }

    fn accept(&mut self, _state: &mut ()) {
        self.position.set(self.position.get() + self.pending_delta);
    }

    fn reject(&mut self, _state: &mut ()) {}
}

#[test]
fn update_attempt_can_draw_from_chain_rng() {
    fn run_walk(seed: u64) -> i32 {
        let position = Rc::new(Cell::new(0));
        let updates = SingleUpdateSet::new(RandomWalkUpdate::new(Rc::clone(&position)));
        let mut kernel = MetropolisKernel::new(updates);
        let mut rng = SeedSource::new(seed).rng_for(ChainId(0));

        run_typed(
            (),
            &mut rng,
            &mut kernel,
            TypedCounterMeasurement { count: 0 },
            SimulationParams {
                max_steps: 64,
                steps_per_cycle: 8,
                cycles_per_check: 1,
            },
        )
        .unwrap();

        position.get()
    }

    assert_eq!(run_walk(123), run_walk(123));
}

#[derive(Clone, Copy, Debug, Eq, PartialEq)]
struct CounterState {
    value: i64,
}

#[derive(Clone, Copy, Debug)]
struct AddUpdate {
    delta: i64,
}

impl<R: Rng> Update<CounterState, R> for AddUpdate {
    fn attempt(&mut self, _state: &mut CounterState, rng: &mut R) -> Verdict {
        metropolis(1.0, rng)
    }

    fn accept(&mut self, state: &mut CounterState) {
        state.value += self.delta;
    }

    fn reject(&mut self, _state: &mut CounterState) {}
}

#[derive(Clone, Copy, Debug, Default)]
struct SumMeasurement {
    samples: u64,
    sum: i64,
}

impl Measurement<CounterState> for SumMeasurement {
    type Output = i64;

    fn measure(&mut self, state: &CounterState) {
        self.samples += 1;
        self.sum += state.value;
    }

    fn finish(self) -> Self::Output {
        self.sum
    }
}

#[test]
fn run_typed_owns_and_returns_state() {
    let mut rng = SeedSource::new(123).rng_for(ChainId(0));
    let mut kernel = MetropolisKernel::new(SingleUpdateSet::new(AddUpdate { delta: 2 }));

    let (state, stats, measured_sum) = run_typed(
        CounterState { value: 0 },
        &mut rng,
        &mut kernel,
        SumMeasurement::default(),
        SimulationParams {
            max_steps: 6,
            steps_per_cycle: 2,
            cycles_per_check: 1,
        },
    )
    .unwrap();

    assert_eq!(state, CounterState { value: 12 });
    assert_eq!(stats.steps_done, 6);
    assert_eq!(stats.cycles_done, 3);
    assert_eq!(measured_sum, 4 + 8 + 12);
    assert_eq!(kernel.updates().stats()[0].nprops, 6);
    assert_eq!(kernel.updates().stats()[0].naccs, 6);
}

#[derive(Default)]
struct RecordingCallbacks {
    calls: Vec<(&'static str, u64, u64, u64)>,
}

impl RunCallbacks<SimulationCtx> for RecordingCallbacks {
    fn on_step(&mut self, ctx: &SimulationCtx) {
        self.calls.push(("step", ctx.steps_done, ctx.cycles_done, ctx.steps_in_cycle));
    }

    fn on_cycle(&mut self, ctx: &SimulationCtx) {
        self.calls.push(("cycle", ctx.steps_done, ctx.cycles_done, ctx.steps_in_cycle));
    }

    fn on_checkpoint(&mut self, ctx: &SimulationCtx) {
        self.calls.push(("checkpoint", ctx.steps_done, ctx.cycles_done, ctx.steps_in_cycle));
    }

    fn stop_when(&mut self, ctx: &SimulationCtx) -> bool {
        self.calls.push(("stop", ctx.steps_done, ctx.cycles_done, ctx.steps_in_cycle));
        false
    }
}

#[test]
fn callbacks_are_called_in_loop_order() {
    let value = Rc::new(Cell::new(0));
    let mut kernel = MetropolisKernel::new(SingleUpdateSet::new(IncrementUpdate {
        value: Rc::clone(&value),
    }));
    let mut rng = SeedSource::new(5).rng_for(ChainId(0));
    let mut callbacks = RecordingCallbacks::default();
    let (_state, stats, ()) = run_typed_with_callbacks(
        (),
        &mut rng,
        &mut kernel,
        CounterMeasurement {
            count: Rc::new(Cell::new(0)),
        },
        SimulationParams {
            max_steps: 5,
            steps_per_cycle: 2,
            cycles_per_check: 2,
        },
        &mut callbacks,
    )
    .unwrap();
    assert_eq!(stats.steps_done, 5);
    assert_eq!(stats.cycles_done, 3);
    assert_eq!(
        callbacks.calls,
        vec![
            ("step", 1, 0, 1),
            ("step", 2, 0, 2),
            ("cycle", 2, 1, 0),
            ("step", 3, 1, 1),
            ("step", 4, 1, 2),
            ("cycle", 4, 2, 0),
            ("checkpoint", 4, 2, 0),
            ("stop", 4, 2, 0),
            ("step", 5, 2, 1),
            ("cycle", 5, 3, 0),
        ]
    );
}

#[test]
fn zero_cycles_per_check_disables_checkpoints() {
    let value = Rc::new(Cell::new(0));
    let mut kernel = MetropolisKernel::new(SingleUpdateSet::new(IncrementUpdate {
        value: Rc::clone(&value),
    }));
    let mut rng = SeedSource::new(5).rng_for(ChainId(0));
    let mut callbacks = RecordingCallbacks::default();
    run_typed_with_callbacks(
        (),
        &mut rng,
        &mut kernel,
        CounterMeasurement {
            count: Rc::new(Cell::new(0)),
        },
        SimulationParams {
            max_steps: 4,
            steps_per_cycle: 1,
            cycles_per_check: 0,
        },
        &mut callbacks,
    )
    .unwrap();
    assert!(callbacks.calls.iter().all(|c| c.0 == "step" || c.0 == "cycle"));
    assert_eq!(callbacks.calls.len(), 8);
}
