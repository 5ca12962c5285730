use vstd::prelude::*;

use crate::error::{Result, RmcError};
use crate::merge::Merge;

use super::traits::{Kernel, Measurement, RunCallbacks, StepOutcome};

verus! {

/// Step and cycle budget of one run.
#[derive(Clone, Copy, Debug, PartialEq, Eq, Structural)]
pub struct SimulationParams {
    /// Maximum number of MC steps to execute.
    pub max_steps: u64,
    /// Number of MC steps between measurements and cycle callbacks.
    pub steps_per_cycle: u64,
    /// Number of cycles between checkpoint callbacks and stop checks; `0` disables both.
    pub cycles_per_check: u64,
}

impl Default for SimulationParams {
    fn default() -> (r: Self)
        ensures
            r == (SimulationParams { max_steps: 1, steps_per_cycle: 1, cycles_per_check: 1 }),
    {
        SimulationParams { max_steps: 1, steps_per_cycle: 1, cycles_per_check: 1 }
    }
}

/// The error returned for a zero cycle length.
pub open spec fn zero_cycle_error(err: RmcError) -> bool {
    err matches RmcError::InvalidArgument(m) && m@ == "steps_per_cycle must be > 0"@
}

impl SimulationParams {
    /// Validate the parameters: a cycle must contain at least one step.
    ///
    /// When `max_steps` is not a multiple of `steps_per_cycle`, the final cycle runs
    /// fewer steps and is still measured once.
    pub fn validate(&self) -> (r: Result<()>)
        ensures
            r is Ok <==> self.steps_per_cycle > 0,
            r matches Err(e) ==> zero_cycle_error(e),
    {
        if self.steps_per_cycle == 0 {
            proof {
                reveal_strlit("steps_per_cycle must be > 0");
            }
            return Err(RmcError::InvalidArgument(String::from_str("steps_per_cycle must be > 0")));
        }
        Ok(())
    }
}

/// Counters of a finished run.
#[derive(Clone, Copy, Debug, PartialEq, Eq, Structural)]
pub struct SimulationStats {
    /// Number of kernel steps completed.
    pub steps_done: u64,
    /// Number of measurement/callback cycles completed.
    pub cycles_done: u64,
}

impl Default for SimulationStats {
    fn default() -> (r: Self)
        ensures
            r == (SimulationStats { steps_done: 0, cycles_done: 0 }),
    {
        SimulationStats { steps_done: 0, cycles_done: 0 }
    }
}

impl Merge for SimulationStats {
    open spec fn can_merge(self, other: Self) -> bool {
        &&& self.steps_done + other.steps_done <= u64::MAX
        &&& self.cycles_done + other.cycles_done <= u64::MAX
    }

    open spec fn merged(self, other: Self) -> Self {
        SimulationStats {
            steps_done: (self.steps_done + other.steps_done) as u64,
            cycles_done: (self.cycles_done + other.cycles_done) as u64,
        }
    }

    fn can_merge_with(&self, other: &Self) -> (r: bool) {
        other.steps_done <= u64::MAX - self.steps_done && other.cycles_done <= u64::MAX - self.cycles_done
    }

    fn merge(self, other: Self) -> (r: Self) {
        SimulationStats {
            steps_done: self.steps_done + other.steps_done,
            cycles_done: self.cycles_done + other.cycles_done,
        }
    }
}

/// Position of the run loop at a callback.
#[derive(Clone, Copy, Debug, PartialEq, Eq, Structural)]
pub struct SimulationCtx {
    /// Total steps completed at the callback point.
    pub steps_done: u64,
    /// Total cycles completed at the callback point.
    pub cycles_done: u64,
    /// One-based step index inside the current cycle for `on_step`; `0` for cycle and
    /// checkpoint callbacks.
    pub steps_in_cycle: u64,
}

/// Callbacks that do nothing and never stop a run.
#[derive(Clone, Copy, Debug)]
pub struct NoopCallbacks;

impl RunCallbacks<SimulationCtx> for NoopCallbacks {
    open spec fn never_stops() -> bool {
        true
    }

    /// Stepping leaves the callbacks as they are.
    open spec fn steps_on(&self, ctx: SimulationCtx, next: &Self) -> bool {
        *next == *self
    }

    /// A cycle leaves the callbacks as they are.
    open spec fn cycles_on(&self, ctx: SimulationCtx, next: &Self) -> bool {
        *next == *self
    }

    /// A checkpoint leaves the callbacks as they are.
    open spec fn checkpoints_on(&self, ctx: SimulationCtx, next: &Self) -> bool {
        *next == *self
    }

    /// Never asks to stop.
    open spec fn stop_answer(&self, ctx: SimulationCtx, next: &Self, r: bool) -> bool {
        !r
    }

    fn on_step(&mut self, ctx: &SimulationCtx) {
    }

    fn on_cycle(&mut self, ctx: &SimulationCtx) {
    }

    fn on_checkpoint(&mut self, ctx: &SimulationCtx) {
    }

    fn stop_when(&mut self, ctx: &SimulationCtx) -> (r: bool) {
        false
    }
}

/// Measurement that ignores every cycle and returns `()`.
#[derive(Clone, Copy, Debug)]
pub struct NullMeasurement;

impl<State> Measurement<State> for NullMeasurement {
    type Output = ();

    /// Measuring changes nothing.
    open spec fn measures_to(&self, state: State, next: &Self) -> bool {
        *next == *self
    }

    /// The output is `()`.
    open spec fn finishes_with(&self, out: ()) -> bool {
        out == ()
    }

    fn measure(&mut self, state: &State) {
    }

    fn finish(self) -> (out: Self::Output) {
    }
}

/// What the counters of a successful run satisfy: no more than `max_steps` steps,
/// one cycle per `steps_per_cycle` steps with a final partial cycle counted, and a
/// run that ends early only at a checkpoint, after whole cycles, when the callbacks
/// can ask for a stop.
pub open spec fn run_accounting(params: SimulationParams, stats: SimulationStats, stoppable: bool) -> bool {
    let spc = params.steps_per_cycle as int;
    let c = stats.cycles_done as int;
    let s = stats.steps_done as int;
    &&& s <= params.max_steps
    &&& s <= c * spc
    &&& c > 0 ==> (c - 1) * spc < s
    &&& s < params.max_steps ==> {
        &&& stoppable
        &&& params.cycles_per_check > 0
        &&& c > 0
        &&& c % (params.cycles_per_check as int) == 0
        &&& s == c * spc
    }
}

/// Index, in the states of a run of `steps` steps, of the state measured at the end
/// of cycle `c`: the end of the cycle, or the last state for a short final cycle.
pub open spec fn cycle_end(params: SimulationParams, steps: int, c: int) -> int {
    let e = (c + 1) * (params.steps_per_cycle as int);
    if e < steps {
        e
    } else {
        steps
    }
}

/// Step `i` of the traced kernels, states and generators succeeded.
pub open spec fn trace_step<State, R, K: Kernel<State, R>>(ks: Seq<K>, ss: Seq<State>, gs: Seq<R>, i: int) -> bool {
    exists|o: StepOutcome| #[trigger] ks[i].steps_to(ss[i], gs[i], &ks[i + 1], ss[i + 1], gs[i + 1], Ok(o))
}

/// `ks`, `ss` and `gs` are the kernels, states and generators of a run that
/// prepared `k0` against `s0` and then took `ks.len() - 1` successful steps, the
/// generator starting as `g0`.
pub open spec fn kernel_trace<State, R, K: Kernel<State, R>>(
    k0: K,
    s0: State,
    g0: R,
    ks: Seq<K>,
    ss: Seq<State>,
    gs: Seq<R>,
) -> bool {
    &&& ks.len() >= 1
    &&& ss.len() == ks.len()
    &&& gs.len() == ks.len()
    &&& k0.prepares_to(s0, &ks[0], ss[0], Ok(()))
    &&& gs[0] == g0
    &&& forall|i: int| 0 <= i < ks.len() - 1 ==> #[trigger] trace_step(ks, ss, gs, i)
}

/// Cycle `c` of the traced measurements measured the state at its cycle's end.
pub open spec fn measure_step<State, M: Measurement<State>>(params: SimulationParams, ss: Seq<State>, ms: Seq<M>, c: int) -> bool {
    ms[c].measures_to(ss[cycle_end(params, ss.len() - 1, c)], &ms[c + 1])
}

/// `ms` are the measurements of a run with states `ss`: starting as `m0`, one
/// measurement per cycle of the state at that cycle's end.
pub open spec fn measure_trace<State, M: Measurement<State>>(params: SimulationParams, m0: M, ss: Seq<State>, ms: Seq<M>) -> bool {
    &&& ms.len() >= 1
    &&& ms[0] == m0
    &&& forall|c: int| 0 <= c < ms.len() - 1 ==> #[trigger] measure_step(params, ss, ms, c)
}

/// A successful run from kernel `k0`, state `s0`, generator `g0` and measurement
/// `m0` to `k`, `s`, `g` and `m`: the kernel was prepared, then stepped
/// `stats.steps_done` times, each step succeeding, and the measurement measured the
/// state once at the end of each of the `stats.cycles_done` cycles.
pub open spec fn completed_run<State, R, K: Kernel<State, R>, M: Measurement<State>>(
    params: SimulationParams,
    k0: K,
    s0: State,
    g0: R,
    m0: M,
    k: K,
    s: State,
    g: R,
    m: M,
    stats: SimulationStats,
) -> bool {
    exists|ks: Seq<K>, ss: Seq<State>, gs: Seq<R>, ms: Seq<M>|
        #![trigger kernel_trace(k0, s0, g0, ks, ss, gs), measure_trace(params, m0, ss, ms)]
        {
            &&& kernel_trace(k0, s0, g0, ks, ss, gs)
            &&& measure_trace(params, m0, ss, ms)
            &&& ks.len() == stats.steps_done + 1
            &&& ms.len() == stats.cycles_done + 1
            &&& k == ks.last()
            &&& s == ss.last()
            &&& g == gs.last()
            &&& m == ms.last()
        }
}

/// A completed run whose final measurement's `finish` gave `out`.
pub open spec fn finished_run<State, R, K: Kernel<State, R>, M: Measurement<State>>(
    params: SimulationParams,
    k0: K,
    s0: State,
    g0: R,
    m0: M,
    k: K,
    s: State,
    g: R,
    stats: SimulationStats,
    out: M::Output,
) -> bool {
    exists|m: M| #[trigger] completed_run(params, k0, s0, g0, m0, k, s, g, m, stats) && m.finishes_with(out)
}

/// A run from kernel `k0`, state `s0` and generator `g0` that ended with the error
/// `e`, leaving `k`, `s` and `g`: either preparing failed, or the kernel was
/// prepared, took some successful steps, and the next step failed.
pub open spec fn failed_run<State, R, K: Kernel<State, R>>(k0: K, s0: State, g0: R, k: K, s: State, g: R, e: RmcError) -> bool {
    ||| k0.prepares_to(s0, &k, s, Err(e)) && g == g0
    ||| exists|ks: Seq<K>, ss: Seq<State>, gs: Seq<R>|
        #[trigger] kernel_trace(k0, s0, g0, ks, ss, gs) && ks.last().steps_to(ss.last(), gs.last(), &k, s, g, Err(e))
}

proof fn lemma_trace_push<State, R, K: Kernel<State, R>>(
    k0: K,
    s0: State,
    g0: R,
    ks: Seq<K>,
    ss: Seq<State>,
    gs: Seq<R>,
    k: K,
    s: State,
    g: R,
    o: StepOutcome,
)
    requires
        kernel_trace(k0, s0, g0, ks, ss, gs),
        ks.last().steps_to(ss.last(), gs.last(), &k, s, g, Ok(o)),
    ensures
        kernel_trace(k0, s0, g0, ks.push(k), ss.push(s), gs.push(g)),
{
    let n = ks.len() as int;
    let ks2 = ks.push(k);
    let ss2 = ss.push(s);
    let gs2 = gs.push(g);
    assert forall|i: int| 0 <= i < ks2.len() - 1 implies #[trigger] trace_step(ks2, ss2, gs2, i) by {
        if i < n - 1 {
            assert(trace_step(ks, ss, gs, i));
            let w = choose|w: StepOutcome| #[trigger] ks[i].steps_to(ss[i], gs[i], &ks[i + 1], ss[i + 1], gs[i + 1], Ok(w));
            assert(ks2[i].steps_to(ss2[i], gs2[i], &ks2[i + 1], ss2[i + 1], gs2[i + 1], Ok(w)));
        } else {
            assert(ks2[i].steps_to(ss2[i], gs2[i], &ks2[i + 1], ss2[i + 1], gs2[i + 1], Ok(o)));
        }
    }
}

/// Another step leaves the states measured at the ends of finished cycles in place.
proof fn lemma_measures_keep<State, M: Measurement<State>>(params: SimulationParams, m0: M, ss: Seq<State>, ms: Seq<M>, s: State)
    requires
        measure_trace(params, m0, ss, ms),
        params.steps_per_cycle > 0,
        ss.len() >= 1,
        (ms.len() - 1) * (params.steps_per_cycle as int) <= ss.len() - 1,
    ensures
        measure_trace(params, m0, ss.push(s), ms),
{
    let spc = params.steps_per_cycle as int;
    let ss2 = ss.push(s);
    assert forall|c: int| 0 <= c < ms.len() - 1 implies #[trigger] measure_step(params, ss2, ms, c) by {
        assert(measure_step(params, ss, ms, c));
        assert((c + 1) * spc <= (ms.len() - 1) * spc) by (nonlinear_arith)
            requires
                c + 1 <= ms.len() - 1,
                spc > 0,
        ;
        assert(cycle_end(params, ss2.len() - 1, c) == cycle_end(params, ss.len() - 1, c));
    }
}

/// Measuring the last state closes the current cycle.
proof fn lemma_measure_push<State, M: Measurement<State>>(params: SimulationParams, m0: M, ss: Seq<State>, ms: Seq<M>, m: M)
    requires
        measure_trace(params, m0, ss, ms),
        params.steps_per_cycle > 0,
        ss.len() >= 1,
        ss.len() - 1 <= ms.len() * (params.steps_per_cycle as int),
        ms.last().measures_to(ss.last(), &m),
    ensures
        measure_trace(params, m0, ss, ms.push(m)),
{
    let ms2 = ms.push(m);
    assert forall|c: int| 0 <= c < ms2.len() - 1 implies #[trigger] measure_step(params, ss, ms2, c) by {
        if c < ms.len() - 1 {
            assert(measure_step(params, ss, ms, c));
        } else {
            assert(cycle_end(params, ss.len() - 1, c) == ss.len() - 1);
        }
    }
}

/// One callback call of the run loop, with the position it reports.
pub enum CallbackCall {
    Step(SimulationCtx),
    Cycle(SimulationCtx),
    Checkpoint(SimulationCtx),
    StopCheck(SimulationCtx),
}

/// The `on_step` calls of cycle `c` after the steps that took the run from `lo` to
/// `hi` steps: one per step, numbered from one inside the cycle.
pub open spec fn step_calls(c: int, lo: int, hi: int) -> Seq<CallbackCall> {
    Seq::new(
        (hi - lo) as nat,
        |j: int|
            CallbackCall::Step(
                SimulationCtx { steps_done: (lo + j + 1) as u64, cycles_done: c as u64, steps_in_cycle: (j + 1) as u64 },
            ),
    )
}

/// Whether a run that has done `cycles` cycles is at a checkpoint.
pub open spec fn is_checkpoint(params: SimulationParams, cycles: int) -> bool {
    params.cycles_per_check > 0 && cycles % (params.cycles_per_check as int) == 0
}

/// The callback calls of cycle `c` of a run of `steps` steps: its steps, then
/// `on_cycle`, then at a checkpoint `on_checkpoint` and `stop_when`.
pub open spec fn cycle_calls(params: SimulationParams, steps: int, c: int) -> Seq<CallbackCall> {
    let e = cycle_end(params, steps, c);
    let ctx = SimulationCtx { steps_done: e as u64, cycles_done: (c + 1) as u64, steps_in_cycle: 0 };
    step_calls(c, c * (params.steps_per_cycle as int), e) + seq![CallbackCall::Cycle(ctx)] + if is_checkpoint(
        params,
        c + 1,
    ) {
        seq![CallbackCall::Checkpoint(ctx), CallbackCall::StopCheck(ctx)]
    } else {
        Seq::empty()
    }
}

/// The callback calls of the first `cycles` cycles of a run of `steps` steps, in
/// the order the loop makes them.
pub open spec fn expected_calls(params: SimulationParams, steps: int, cycles: nat) -> Seq<CallbackCall>
    decreases cycles,
{
    if cycles == 0 {
        Seq::empty()
    } else {
        expected_calls(params, steps, (cycles - 1) as nat) + cycle_calls(params, steps, cycles - 1)
    }
}

/// Callbacks `cb` took the call `call` to `next`, answering `answer` where the call
/// is `stop_when` (other calls answer `false`).
pub open spec fn callback_moves<C: RunCallbacks<SimulationCtx>>(cb: C, call: CallbackCall, next: C, answer: bool) -> bool {
    match call {
        CallbackCall::Step(ctx) => cb.steps_on(ctx, &next) && !answer,
        CallbackCall::Cycle(ctx) => cb.cycles_on(ctx, &next) && !answer,
        CallbackCall::Checkpoint(ctx) => cb.checkpoints_on(ctx, &next) && !answer,
        CallbackCall::StopCheck(ctx) => cb.stop_answer(ctx, &next, answer),
    }
}

/// The callback states `cbs` went through the calls `calls` one by one, giving the
/// answers `answers`.
pub open spec fn callbacks_followed<C: RunCallbacks<SimulationCtx>>(calls: Seq<CallbackCall>, cbs: Seq<C>, answers: Seq<bool>) -> bool {
    &&& cbs.len() == calls.len() + 1
    &&& answers.len() == calls.len()
    &&& forall|j: int| 0 <= j < calls.len() ==> #[trigger] callback_moves(cbs[j], calls[j], cbs[j + 1], answers[j])
}

/// The callbacks of a run with counters `stats` went from `c0` to `c` through
/// exactly the calls the loop makes, in order; only the last call may have asked to
/// stop, and a run that ended before `max_steps` ended on a `stop_when` that asked.
pub open spec fn callback_run<C: RunCallbacks<SimulationCtx>>(params: SimulationParams, stats: SimulationStats, c0: C, c: C) -> bool {
    let calls = expected_calls(params, stats.steps_done as int, stats.cycles_done as nat);
    exists|cbs: Seq<C>, answers: Seq<bool>|
        #[trigger] callbacks_followed(calls, cbs, answers) && {
            &&& cbs[0] == c0
            &&& cbs.last() == c
            &&& forall|j: int| 0 <= j < answers.len() - 1 ==> !#[trigger] answers[j]
            &&& stats.steps_done < params.max_steps ==> answers.len() > 0 && answers.last()
        }
}

/// A run with counters `stats` made its callback calls as the loop does and stopped
/// at the first `stop_when` that asked, whatever callbacks it started from.
pub open spec fn stopped_as_asked<C: RunCallbacks<SimulationCtx>>(params: SimulationParams, stats: SimulationStats) -> bool {
    exists|c0: C, c: C| #[trigger] callback_run(params, stats, c0, c)
}

proof fn lemma_follow_push<C: RunCallbacks<SimulationCtx>>(
    calls: Seq<CallbackCall>,
    cbs: Seq<C>,
    answers: Seq<bool>,
    call: CallbackCall,
    next: C,
    answer: bool,
)
    requires
        callbacks_followed(calls, cbs, answers),
        callback_moves(cbs.last(), call, next, answer),
    ensures
        callbacks_followed(calls.push(call), cbs.push(next), answers.push(answer)),
{
    let c2 = calls.push(call);
    let b2 = cbs.push(next);
    let a2 = answers.push(answer);
    assert forall|j: int| 0 <= j < c2.len() implies #[trigger] callback_moves(b2[j], c2[j], b2[j + 1], a2[j]) by {
        if j < calls.len() {
            assert(callback_moves(cbs[j], calls[j], cbs[j + 1], answers[j]));
        }
    }
}

/// Further steps leave the calls of finished cycles in place.
proof fn lemma_calls_keep(params: SimulationParams, steps: int, steps2: int, cycles: nat)
    requires
        params.steps_per_cycle > 0,
        cycles * (params.steps_per_cycle as int) <= steps <= steps2,
    ensures
        expected_calls(params, steps, cycles) == expected_calls(params, steps2, cycles),
    decreases cycles,
{
    if cycles > 0 {
        let spc = params.steps_per_cycle as int;
        let c = cycles - 1;
        assert((c + 1) * spc == cycles * spc);
        assert(c * spc <= cycles * spc) by (nonlinear_arith)
            requires
                c <= cycles,
                spc > 0,
        ;
        lemma_calls_keep(params, steps, steps2, (cycles - 1) as nat);
        assert(cycle_end(params, steps, c) == cycle_end(params, steps2, c));
    }
}

/// The run loop shared by every entry point: step the kernel, measure once per
/// cycle, fire the callbacks, and honour `stop_when` at checkpoints.
fn drive<State, R, K, C, M>(
    state: &mut State,
    rng: &mut R,
    kernel: &mut K,
    params: SimulationParams,
    callbacks: &mut C,
    measurement: &mut M,
) -> (r: Result<SimulationStats>)
    where
        K: Kernel<State, R>,
        C: RunCallbacks<SimulationCtx>,
        M: Measurement<State>,
    ensures
        params.steps_per_cycle == 0 ==> {
            &&& r matches Err(e) && zero_cycle_error(e)
            &&& *final(state) == *old(state)
            &&& *final(rng) == *old(rng)
            &&& *final(kernel) == *old(kernel)
            &&& *final(measurement) == *old(measurement)
            &&& *final(callbacks) == *old(callbacks)
        },
        r matches Ok(stats) ==> {
            &&& params.steps_per_cycle > 0
            &&& run_accounting(params, stats, !C::never_stops())
            &&& completed_run(
                params,
                *old(kernel),
                *old(state),
                *old(rng),
                *old(measurement),
                *final(kernel),
                *final(state),
                *final(rng),
                *final(measurement),
                stats,
            )
            &&& callback_run(params, stats, *old(callbacks), *final(callbacks))
        },
        params.steps_per_cycle > 0 ==> (r matches Err(e) ==> failed_run(
            *old(kernel),
            *old(state),
            *old(rng),
            *final(kernel),
            *final(state),
            *final(rng),
            e,
        )),
{
    params.validate()?;
    let ghost k0 = *kernel;
    let ghost s0 = *state;
    let ghost g0 = *rng;
    let ghost m0 = *measurement;
    let ghost c0 = *callbacks;
    let prepared = kernel.prepare(state);
    match prepared {
        Err(e) => {
            return Err(e);
        },
        Ok(u) => {
            proof {
                assert(u == ());
            }
        },
    }
    let ghost mut ks: Seq<K> = seq![*kernel];
    let ghost mut ss: Seq<State> = seq![*state];
    let ghost mut gs: Seq<R> = seq![*rng];
    let ghost mut ms: Seq<M> = seq![*measurement];
    proof {
        assert(prepared is Ok);
        assert(prepared == Ok::<(), RmcError>(()));
        assert(k0.prepares_to(s0, &ks[0], ss[0], Ok(())));
        assert(kernel_trace(k0, s0, g0, ks, ss, gs));
        assert(measure_trace(params, m0, ss, ms));
    }

    let spc = params.steps_per_cycle;
    let mut stats = SimulationStats { steps_done: 0, cycles_done: 0 };
    let ghost mut base: int = 0;
    let mut stop = false;
    let ghost mut cbs: Seq<C> = seq![*callbacks];
    let ghost mut answers: Seq<bool> = Seq::empty();
    proof {
        let c0i = stats.cycles_done as int;
        assert(c0i * spc as int == 0) by (nonlinear_arith)
            requires
                c0i == 0,
        ;
        assert(callbacks_followed(expected_calls(params, 0, 0), cbs, answers));
    }
    while !stop && stats.steps_done < params.max_steps
        invariant
            spc == params.steps_per_cycle,
            spc > 0,
            base == stats.cycles_done as int * spc as int,
            stats.steps_done <= params.max_steps,
            stats.steps_done <= base,
            stats.cycles_done > 0 ==> base - spc < stats.steps_done,
            stats.steps_done < params.max_steps ==> stats.steps_done == base,
            stop ==> {
                &&& !C::never_stops()
                &&& params.cycles_per_check > 0
                &&& stats.cycles_done > 0
                &&& stats.cycles_done % params.cycles_per_check == 0
            },
            stats.cycles_done <= stats.steps_done,
            kernel_trace(k0, s0, g0, ks, ss, gs),
            measure_trace(params, m0, ss, ms),
            ks.len() == stats.steps_done + 1,
            ms.len() == stats.cycles_done + 1,
            *kernel == ks.last(),
            *state == ss.last(),
            *rng == gs.last(),
            *measurement == ms.last(),
            k0 == *old(kernel),
            s0 == *old(state),
            g0 == *old(rng),
            m0 == *old(measurement),
            c0 == *old(callbacks),
            callbacks_followed(expected_calls(params, stats.steps_done as int, stats.cycles_done as nat), cbs, answers),
            cbs[0] == c0,
            cbs.last() == *callbacks,
            forall|j: int| 0 <= j < answers.len() - 1 ==> !#[trigger] answers[j],
            stop == (answers.len() > 0 && answers.last()),
        decreases params.max_steps - stats.steps_done,
    {
        let ghost start = stats.steps_done;
        let ghost done_calls = expected_calls(params, start as int, stats.cycles_done as nat);
        proof {
            assert(done_calls + step_calls(stats.cycles_done as int, start as int, start as int) =~= done_calls);
        }
        let mut i: u64 = 0;
        while i < spc && stats.steps_done < params.max_steps
            invariant
                spc == params.steps_per_cycle,
                spc > 0,
                i <= spc,
                stats.steps_done == start + i,
                stats.steps_done <= params.max_steps,
                start == base,
                base == stats.cycles_done as int * spc as int,
                stats.cycles_done <= start,
                kernel_trace(k0, s0, g0, ks, ss, gs),
                measure_trace(params, m0, ss, ms),
                ks.len() == stats.steps_done + 1,
                ms.len() == stats.cycles_done + 1,
                *kernel == ks.last(),
                *state == ss.last(),
                *rng == gs.last(),
                *measurement == ms.last(),
                k0 == *old(kernel),
                s0 == *old(state),
                g0 == *old(rng),
                m0 == *old(measurement),
                c0 == *old(callbacks),
                done_calls == expected_calls(params, start as int, stats.cycles_done as nat),
                callbacks_followed(
                    done_calls + step_calls(stats.cycles_done as int, start as int, stats.steps_done as int),
                    cbs,
                    answers,
                ),
                cbs[0] == c0,
                cbs.last() == *callbacks,
                forall|j: int| 0 <= j < answers.len() ==> !#[trigger] answers[j],
            decreases spc - i,
        {
            let ghost kb = *kernel;
            let ghost sb = *state;
            let ghost gb = *rng;
            match kernel.step(state, rng) {
                Err(e) => {
                    proof {
                        assert(kb.steps_to(sb, gb, kernel, *state, *rng, Err(e)));
                        let kf = *kernel;
                        assert(kernel_trace(k0, s0, g0, ks, ss, gs) && ks.last().steps_to(ss.last(), gs.last(), &kf, *state, *rng, Err(e)));
                        assert(failed_run(k0, s0, g0, kf, *state, *rng, e));
                    }
                    return Err(e);
                },
                Ok(o) => {
                    proof {
                        lemma_trace_push(k0, s0, g0, ks, ss, gs, *kernel, *state, *rng, o);
                        lemma_measures_keep(params, m0, ss, ms, *state);
                        ks = ks.push(*kernel);
                        ss = ss.push(*state);
                        gs = gs.push(*rng);
                    }
                },
            }
            stats.steps_done = stats.steps_done + 1;
            let step_ctx = SimulationCtx { steps_done: stats.steps_done, cycles_done: stats.cycles_done, steps_in_cycle: i + 1 };
            let ghost cb_before = *callbacks;
            callbacks.on_step(&step_ctx);
            proof {
                let cd = stats.cycles_done as int;
                let prev_calls = done_calls + step_calls(cd, start as int, stats.steps_done - 1);
                lemma_follow_push(prev_calls, cbs, answers, CallbackCall::Step(step_ctx), *callbacks, false);
                assert(prev_calls.push(CallbackCall::Step(step_ctx)) =~= done_calls + step_calls(
                    cd,
                    start as int,
                    stats.steps_done as int,
                ));
                cbs = cbs.push(*callbacks);
                answers = answers.push(false);
            }
            i = i + 1;
        }

        measurement.measure(state);
        proof {
            assert((stats.cycles_done as int + 1) * spc as int == stats.cycles_done as int * spc as int + spc as int) by (nonlinear_arith);
            lemma_measure_push(params, m0, ss, ms, *measurement);
            ms = ms.push(*measurement);
            base = base + spc;
        }
        let ghost cd = stats.cycles_done as int;
        stats.cycles_done = stats.cycles_done + 1;
        let ctx = SimulationCtx { steps_done: stats.steps_done, cycles_done: stats.cycles_done, steps_in_cycle: 0 };
        proof {
            lemma_calls_keep(params, start as int, stats.steps_done as int, cd as nat);
            assert(cycle_end(params, stats.steps_done as int, cd) == stats.steps_done);
            assert(expected_calls(params, stats.steps_done as int, (cd + 1) as nat) == expected_calls(
                params,
                stats.steps_done as int,
                cd as nat,
            ) + cycle_calls(params, stats.steps_done as int, cd));
        }
        let ghost steps_calls = done_calls + step_calls(cd, start as int, stats.steps_done as int);
        callbacks.on_cycle(&ctx);
        proof {
            lemma_follow_push(steps_calls, cbs, answers, CallbackCall::Cycle(ctx), *callbacks, false);
            cbs = cbs.push(*callbacks);
            answers = answers.push(false);
        }
        let ghost cycle_done_calls = steps_calls.push(CallbackCall::Cycle(ctx));
        if params.cycles_per_check > 0 && stats.cycles_done % params.cycles_per_check == 0 {
            callbacks.on_checkpoint(&ctx);
            proof {
                lemma_follow_push(cycle_done_calls, cbs, answers, CallbackCall::Checkpoint(ctx), *callbacks, false);
                cbs = cbs.push(*callbacks);
                answers = answers.push(false);
            }
            let ghost before = *callbacks;
            stop = callbacks.stop_when(&ctx);
            proof {
                lemma_follow_push(
                    cycle_done_calls.push(CallbackCall::Checkpoint(ctx)),
                    cbs,
                    answers,
                    CallbackCall::StopCheck(ctx),
                    *callbacks,
                    stop,
                );
                cbs = cbs.push(*callbacks);
                answers = answers.push(stop);
                assert(cycle_done_calls.push(CallbackCall::Checkpoint(ctx)).push(CallbackCall::StopCheck(ctx))
                    =~= expected_calls(params, stats.steps_done as int, stats.cycles_done as nat));
            }
        } else {
            proof {
                assert(cycle_done_calls =~= expected_calls(params, stats.steps_done as int, stats.cycles_done as nat));
            }
        }
    }
    proof {
        let c = stats.cycles_done as int;
        assert((c - 1) * spc as int == c * spc as int - spc as int) by (nonlinear_arith);
        assert(completed_run(params, k0, s0, g0, m0, *kernel, *state, *rng, *measurement, stats));
        assert(callback_run(params, stats, c0, *callbacks));
    }
    Ok(stats)
}

/// Run with a typed measurement and no callbacks, returning the final state, the
/// run counters and the measurement's output.
pub fn run_typed<State, R, K, M>(
    state: State,
    rng: &mut R,
    kernel: &mut K,
    measurement: M,
    params: SimulationParams,
) -> (r: Result<(State, SimulationStats, M::Output)>)
    where
        K: Kernel<State, R>,
        M: Measurement<State>,
    ensures
        params.steps_per_cycle == 0 ==> {
            &&& r matches Err(e) && zero_cycle_error(e)
            &&& *final(kernel) == *old(kernel)
            &&& *final(rng) == *old(rng)
        },
        r matches Ok(out) ==> {
            &&& params.steps_per_cycle > 0
            &&& run_accounting(params, out.1, false)
            &&& out.1.steps_done == params.max_steps
            &&& finished_run::<State, R, K, M>(
                params,
                *old(kernel),
                state,
                *old(rng),
                measurement,
                *final(kernel),
                out.0,
                *final(rng),
                out.1,
                out.2,
            )
        },
        params.steps_per_cycle > 0 ==> (r matches Err(e) ==> exists|s: State|
            #[trigger] failed_run(*old(kernel), state, *old(rng), *final(kernel), s, *final(rng), e)),
{
    let mut callbacks = NoopCallbacks;
    run_typed_with_callbacks(state, rng, kernel, measurement, params, &mut callbacks)
}

/// Run with a typed measurement and callbacks.
pub fn run_typed_with_callbacks<State, R, K, M, C>(
    state: State,
    rng: &mut R,
    kernel: &mut K,
    measurement: M,
    params: SimulationParams,
    callbacks: &mut C,
) -> (r: Result<(State, SimulationStats, M::Output)>)
    where
        K: Kernel<State, R>,
        M: Measurement<State>,
        C: RunCallbacks<SimulationCtx>,
    ensures
        params.steps_per_cycle == 0 ==> {
            &&& r matches Err(e) && zero_cycle_error(e)
            &&& *final(kernel) == *old(kernel)
            &&& *final(rng) == *old(rng)
            &&& *final(callbacks) == *old(callbacks)
        },
        r matches Ok(out) ==> {
            &&& params.steps_per_cycle > 0
            &&& run_accounting(params, out.1, !C::never_stops())
            &&& callback_run(params, out.1, *old(callbacks), *final(callbacks))
            &&& stopped_as_asked::<C>(params, out.1)
            &&& finished_run::<State, R, K, M>(
                params,
                *old(kernel),
                state,
                *old(rng),
                measurement,
                *final(kernel),
                out.0,
                *final(rng),
                out.1,
                out.2,
            )
        },
        params.steps_per_cycle > 0 ==> (r matches Err(e) ==> exists|s: State|
            #[trigger] failed_run(*old(kernel), state, *old(rng), *final(kernel), s, *final(rng), e)),
{
    let ghost s0 = state;
    let ghost m0 = measurement;
    let mut state = state;
    let mut measurement = measurement;
    let stats = match drive(&mut state, rng, kernel, params, callbacks, &mut measurement) {
        Ok(stats) => stats,
        Err(e) => {
            proof {
                if params.steps_per_cycle > 0 {
                    assert(failed_run(*old(kernel), s0, *old(rng), *kernel, state, *rng, e));
                }
            }
            return Err(e);
        },
    };
    let ghost m = measurement;
    let out = measurement.finish();
    proof {
        assert(completed_run(params, *old(kernel), s0, *old(rng), m0, *kernel, state, *rng, m, stats));
    }
    Ok((state, stats, out))
}

} // verus!
