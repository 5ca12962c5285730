use vstd::prelude::*;

use crate::error::{Result, RmcError};
use crate::merge::Merge;
use crate::random::{ChainId, DefaultRng, SeedSource};

use crate::random::seed_source::{seed_spec, xoshiro_from_seed};
use super::run::{
    failed_run, finished_run, run_accounting, run_typed_with_callbacks, stopped_as_asked, zero_cycle_error, NullMeasurement,
    SimulationCtx, SimulationParams, SimulationStats,
};
use super::traits::{Kernel, Measurement, RunCallbacks};

verus! {

/// Independent chains that share per-chain run parameters.
#[derive(Clone, Copy, Debug, PartialEq, Eq, Structural)]
pub struct ParallelConfig {
    /// Number of independent chains to run.
    pub chains: u64,
    /// Master seed from which one RNG stream per chain is derived.
    pub seed: SeedSource,
    /// Per-chain simulation parameters.
    pub params: SimulationParams,
}

/// A warmup phase followed by a measured phase for each of several chains.
#[derive(Clone, Copy, Debug, PartialEq, Eq, Structural)]
pub struct RunPlan {
    /// Number of independent chains to run.
    pub chains: u64,
    /// Master seed from which one RNG stream per chain is derived.
    pub seed: SeedSource,
    /// Warmup phase; `max_steps == 0` skips it.
    pub warmup: SimulationParams,
    /// Measured phase.
    pub main: SimulationParams,
}

/// The error returned for a run without chains.
pub open spec fn zero_chains_error(err: RmcError) -> bool {
    err matches RmcError::InvalidArgument(m) && m@ == "chains must be > 0"@
}

/// The error returned when a reduction receives no chain at all.
pub open spec fn no_chains_error(err: RmcError) -> bool {
    err matches RmcError::InvalidState(m) && m@ == "run produced no chains"@
}

pub fn zero_chains() -> (e: RmcError)
    ensures
        zero_chains_error(e),
{
    proof {
        reveal_strlit("chains must be > 0");
    }
    RmcError::InvalidArgument(String::from_str("chains must be > 0"))
}

impl RunPlan {
    /// Validate the plan and both phases.
    pub fn validate(&self) -> (r: Result<()>)
        ensures
            r is Ok <==> (self.chains > 0 && self.warmup.steps_per_cycle > 0 && self.main.steps_per_cycle > 0),
            self.chains == 0 ==> (r matches Err(e) && zero_chains_error(e)),
            self.chains > 0 && (self.warmup.steps_per_cycle == 0 || self.main.steps_per_cycle == 0)
                ==> (r matches Err(e) && zero_cycle_error(e)),
    {
        if self.chains == 0 {
            return Err(zero_chains());
        }
        self.warmup.validate()?;
        self.main.validate()
    }
}

/// Validate a builder-driven run before any chain is built: at least one chain,
/// and at least one step per cycle in the measured phase and in the warmup, if any.
pub fn validate_chain_run(chains: u64, params: SimulationParams, warmup: Option<SimulationParams>) -> (r: Result<()>)
    ensures
        r is Ok <==> (chains > 0 && params.steps_per_cycle > 0 && (warmup matches Some(w) ==> w.steps_per_cycle > 0)),
        chains == 0 ==> (r matches Err(e) && zero_chains_error(e)),
        chains > 0 ==> (r matches Err(e) ==> zero_cycle_error(e)),
{
    if chains == 0 {
        return Err(zero_chains());
    }
    params.validate()?;
    if let Some(w) = warmup {
        w.validate()?;
    }
    Ok(())
}

impl ParallelConfig {
    /// Validate the chain count and the per-chain parameters.
    pub fn validate(&self) -> (r: Result<()>)
        ensures
            r is Ok <==> (self.chains > 0 && self.params.steps_per_cycle > 0),
            self.chains == 0 ==> (r matches Err(e) && zero_chains_error(e)),
            self.chains > 0 && self.params.steps_per_cycle == 0 ==> (r matches Err(e) && zero_cycle_error(e)),
    {
        if self.chains == 0 {
            return Err(zero_chains());
        }
        self.params.validate()
    }
}

/// Everything a finished multi-chain run produces.
pub struct RunReport<State, K, O> {
    pub stats: SimulationStats,
    pub output: O,
    pub kernels: Vec<K>,
    pub states: Vec<State>,
}

/// Left fold of `merged` over a non-empty sequence, in sequence order.
pub open spec fn fold_merged<O: Merge>(s: Seq<O>) -> O
    decreases s.len(),
{
    if s.len() <= 1 {
        s[0]
    } else {
        fold_merged(s.drop_last()).merged(s.last())
    }
}

/// Every merge of the left fold is defined.
pub open spec fn fold_mergeable<O: Merge>(s: Seq<O>) -> bool
    decreases s.len(),
{
    s.len() <= 1 || (fold_mergeable(s.drop_last()) && fold_merged(s.drop_last()).can_merge(s.last()))
}

/// One finished chain: its counters, measurement output, kernel and final state.
pub type ChainResult<State, K, O> = (SimulationStats, O, K, State);

pub open spec fn stats_of<State, K, O>(p: Seq<Result<ChainResult<State, K, O>>>) -> Seq<SimulationStats> {
    p.map_values(|x: Result<ChainResult<State, K, O>>| x->Ok_0.0)
}

pub open spec fn outputs_of<State, K, O>(p: Seq<Result<ChainResult<State, K, O>>>) -> Seq<O> {
    p.map_values(|x: Result<ChainResult<State, K, O>>| x->Ok_0.1)
}

pub open spec fn kernels_of<State, K, O>(p: Seq<Result<ChainResult<State, K, O>>>) -> Seq<K> {
    p.map_values(|x: Result<ChainResult<State, K, O>>| x->Ok_0.2)
}

pub open spec fn states_of<State, K, O>(p: Seq<Result<ChainResult<State, K, O>>>) -> Seq<State> {
    p.map_values(|x: Result<ChainResult<State, K, O>>| x->Ok_0.3)
}

/// The first `n` chains all finished.
pub open spec fn all_ok_upto<State, K, O>(p: Seq<Result<ChainResult<State, K, O>>>, n: int) -> bool {
    forall|k: int| 0 <= k < n ==> #[trigger] p[k] is Ok
}

/// The merges over every all-finished prefix are defined.
pub open spec fn reducible<State, K, O: Merge>(p: Seq<Result<ChainResult<State, K, O>>>) -> bool {
    forall|n: int|
        0 < n <= p.len() && all_ok_upto(p, n) ==> {
            &&& fold_mergeable(#[trigger] outputs_of(p.take(n)))
            &&& fold_mergeable(stats_of(p.take(n)))
        }
}

/// Reduce finished chains in chain order: the first failed chain's error is
/// returned; otherwise counters and outputs are left-folded with `merge`, and the
/// kernels and final states are kept in chain order.
pub fn reduce_chains<State, K, O: Merge>(partials: Vec<Result<ChainResult<State, K, O>>>) -> (r: Result<RunReport<State, K, O>>)
    requires
        reducible(partials@),
    ensures
        partials@.len() == 0 ==> (r matches Err(e) && no_chains_error(e)),
        (partials@.len() > 0 && all_ok_upto(partials@, partials@.len() as int)) ==> (r matches Ok(rep) && {
            &&& rep.stats == fold_merged(stats_of(partials@))
            &&& rep.output == fold_merged(outputs_of(partials@))
            &&& rep.kernels@ == kernels_of(partials@)
            &&& rep.states@ == states_of(partials@)
        }),
        forall|j: int| 0 <= j < partials@.len() && all_ok_upto(partials@, j) && #[trigger] partials@[j] is Err
            ==> (r matches Err(e) && e == partials@[j]->Err_0),
{
    reduce_chains_checked(partials)
}

/// The error returned when merging the chains' results would overflow.
pub open spec fn merge_overflow_error(err: RmcError) -> bool {
    err matches RmcError::InvalidState(m) && m@ == "merging chain results would overflow"@
}

/// Every all-finished prefix of the first `i` chains has defined merges.
pub open spec fn reducible_upto<State, K, O: Merge>(p: Seq<Result<ChainResult<State, K, O>>>, i: int) -> bool {
    forall|n: int|
        0 < n <= i && all_ok_upto(p, n) ==> {
            &&& fold_mergeable(#[trigger] outputs_of(p.take(n)))
            &&& fold_mergeable(stats_of(p.take(n)))
        }
}

/// `reduce_chains` with every merge checked first: where the merges are defined it
/// gives what `reduce_chains` gives, and it returns the merge-overflow error at the
/// first merge that is not.
pub fn reduce_chains_checked<State, K, O: Merge>(partials: Vec<Result<ChainResult<State, K, O>>>) -> (r: Result<RunReport<State, K, O>>)
    ensures
        partials@.len() == 0 ==> (r matches Err(e) && no_chains_error(e)),
        reducible(partials@) && partials@.len() > 0 && all_ok_upto(partials@, partials@.len() as int) ==> (r matches Ok(rep) && {
            &&& rep.stats == fold_merged(stats_of(partials@))
            &&& rep.output == fold_merged(outputs_of(partials@))
            &&& rep.kernels@ == kernels_of(partials@)
            &&& rep.states@ == states_of(partials@)
        }),
        reducible(partials@) ==> forall|j: int|
            0 <= j < partials@.len() && all_ok_upto(partials@, j) && #[trigger] partials@[j] is Err
                ==> (r matches Err(e) && e == partials@[j]->Err_0),
        r matches Ok(rep) ==> {
            &&& reducible(partials@)
            &&& partials@.len() > 0
            &&& all_ok_upto(partials@, partials@.len() as int)
            &&& rep.stats == fold_merged(stats_of(partials@))
            &&& rep.output == fold_merged(outputs_of(partials@))
            &&& rep.kernels@ == kernels_of(partials@)
            &&& rep.states@ == states_of(partials@)
        },
        r matches Err(e) ==> no_chains_error(e) || (merge_overflow_error(e) && !reducible(partials@)) || exists|j: int|
            0 <= j < partials@.len() && #[trigger] partials@[j] == Err::<ChainResult<State, K, O>, RmcError>(e),
{
    let ghost p = partials@;
    let mut rest = partials;
    let n = rest.len();
    let mut merged: Option<(SimulationStats, O)> = None;
    let mut kernels: Vec<K> = Vec::new();
    let mut states: Vec<State> = Vec::new();
    let mut i: usize = 0;
    while i < n
        invariant
            p == partials@,
            n == p.len(),
            i <= n,
            rest@ == p.skip(i as int),
            reducible_upto(p, i as int),
            all_ok_upto(p, i as int),
            i == 0 <==> merged is None,
            merged matches Some(m) ==> {
                &&& m.0 == fold_merged(stats_of(p.take(i as int)))
                &&& m.1 == fold_merged(outputs_of(p.take(i as int)))
            },
            kernels@ == kernels_of(p.take(i as int)),
            states@ == states_of(p.take(i as int)),
        decreases n - i,
    {
        let partial = rest.remove(0);
        assert(partial == p[i as int]);
        let (stats, output, kernel, state) = match partial {
            Ok(x) => x,
            Err(e) => {
                proof {
                    assert(p[i as int] == Err::<ChainResult<State, K, O>, RmcError>(e));
                }
                return Err(e);
            },
        };
        let ghost t = p.take(i + 1);
        proof {
            assert(all_ok_upto(p, i + 1));
            assert(t.drop_last() =~= p.take(i as int));
            assert(outputs_of(t).drop_last() =~= outputs_of(p.take(i as int)));
            assert(stats_of(t).drop_last() =~= stats_of(p.take(i as int)));
            assert(outputs_of(t).last() == output);
            assert(stats_of(t).last() == stats);
            assert(kernels_of(t) =~= kernels_of(p.take(i as int)).push(kernel));
            assert(states_of(t) =~= states_of(p.take(i as int)).push(state));
            if i > 0 {
                assert(fold_mergeable(outputs_of(p.take(i as int))));
                assert(fold_mergeable(stats_of(p.take(i as int))));
            }
        }
        let next = match merged {
            Some((acc_stats, acc_output)) => {
                if !(acc_stats.can_merge_with(&stats) && acc_output.can_merge_with(&output)) {
                    proof {
                        assert(!fold_mergeable(outputs_of(t)) || !fold_mergeable(stats_of(t)));
                        assert(outputs_of(p.take(i + 1)) == outputs_of(t));
                        assert(!reducible(p));
                        reveal_strlit("merging chain results would overflow");
                    }
                    return Err(RmcError::InvalidState(String::from_str("merging chain results would overflow")));
                }
                (acc_stats.merge(stats), acc_output.merge(output))
            },
            None => (stats, output),
        };
        proof {
            assert(fold_mergeable(outputs_of(t)));
            assert(fold_mergeable(stats_of(t)));
            assert forall|m: int| 0 < m <= i + 1 && all_ok_upto(p, m) implies {
                &&& fold_mergeable(#[trigger] outputs_of(p.take(m)))
                &&& fold_mergeable(stats_of(p.take(m)))
            } by {
                if m == i + 1 {
                    assert(p.take(m) == t);
                }
            }
        }
        kernels.push(kernel);
        states.push(state);
        merged = Some(next);
        i = i + 1;
    }
    proof {
        assert(p.take(n as int) =~= p);
        assert forall|m: int| 0 < m <= p.len() && all_ok_upto(p, m) implies {
            &&& fold_mergeable(#[trigger] outputs_of(p.take(m)))
            &&& fold_mergeable(stats_of(p.take(m)))
        } by {
            assert(reducible_upto(p, n as int));
        }
    }
    match merged {
        Some((stats, output)) => Ok(RunReport { stats, output, kernels, states }),
        None => {
            proof {
                reveal_strlit("run produced no chains");
            }
            Err(RmcError::InvalidState(String::from_str("run produced no chains")))
        },
    }
}

/// The generator of chain `chain`: the one `seed.rng_for(ChainId(chain))` returns.
pub open spec fn chain_rng(seed: SeedSource, chain: u64) -> DefaultRng {
    xoshiro_from_seed(seed_spec(seed.master_spec(), chain))
}

/// `out` is what a measured run of `params` left, starting from kernel `k0`, state
/// `s0`, generator `g0` and measurement `m0`: its counters, the measurement's
/// output, and the final kernel and state.
pub open spec fn ran_to<State, K: Kernel<State, DefaultRng>, M: Measurement<State>>(
    params: SimulationParams,
    k0: K,
    s0: State,
    g0: DefaultRng,
    m0: M,
    out: ChainResult<State, K, M::Output>,
) -> bool {
    exists|g: DefaultRng| #[trigger] finished_run::<State, DefaultRng, K, M>(params, k0, s0, g0, m0, out.2, out.3, g, out.0, out.1)
}

/// A run of `params` from kernel `k0`, state `s0` and generator `g0` failed with `e`.
pub open spec fn failed_from<State, K: Kernel<State, DefaultRng>>(k0: K, s0: State, g0: DefaultRng, e: RmcError) -> bool {
    exists|k: K, s: State, g: DefaultRng| #[trigger] failed_run(k0, s0, g0, k, s, g, e)
}

/// A warmup run of `w`, unmeasured, took kernel `k0`, state `s0` and generator
/// `g0` to `k`, `s` and `g`.
pub open spec fn warmed<State, K: Kernel<State, DefaultRng>>(
    w: SimulationParams,
    k0: K,
    s0: State,
    g0: DefaultRng,
    k: K,
    s: State,
    g: DefaultRng,
) -> bool {
    exists|ws: SimulationStats|
        #[trigger] finished_run::<State, DefaultRng, K, NullMeasurement>(w, k0, s0, g0, NullMeasurement, k, s, g, ws, ())
}

/// Whether a chain job runs the warmup `warmup`: exactly when it has steps.
pub open spec fn warms_up(warmup: Option<SimulationParams>) -> bool {
    warmup is Some && warmup->0.max_steps > 0
}

/// The builder-driven chain job left `out` from kernel `k0`, state `s0`,
/// measurement `m0` and generator `g0`: when the warmup has steps, it ran
/// unmeasured, the kernel's counters were then cleared, and the measured run went
/// on from the warm state and cleared kernel on the same generator; otherwise the
/// measured run started from `k0` and `s0`.
pub open spec fn warm_ran_to<State, K: Kernel<State, DefaultRng>, M: Measurement<State>>(
    warmup: Option<SimulationParams>,
    params: SimulationParams,
    k0: K,
    s0: State,
    g0: DefaultRng,
    m0: M,
    out: ChainResult<State, K, M::Output>,
) -> bool {
    if warms_up(warmup) {
        exists|kw: K, sw: State, gw: DefaultRng, kr: K|
            #![trigger warmed(warmup->0, k0, s0, g0, kw, sw, gw), kw.resets_to(&kr)]
            {
                &&& warmed(warmup->0, k0, s0, g0, kw, sw, gw)
                &&& kw.resets_to(&kr)
                &&& ran_to(params, kr, sw, gw, m0, out)
            }
    } else {
        ran_to(params, k0, s0, g0, m0, out)
    }
}

/// The builder-driven chain job failed with `e`: in the warmup, or in the measured
/// run after the warmup and the clearing of the counters.
pub open spec fn warm_failed<State, K: Kernel<State, DefaultRng>>(
    warmup: Option<SimulationParams>,
    k0: K,
    s0: State,
    g0: DefaultRng,
    e: RmcError,
) -> bool {
    if warms_up(warmup) {
        ||| failed_from(k0, s0, g0, e)
        ||| exists|kw: K, sw: State, gw: DefaultRng, kr: K|
            #![trigger warmed(warmup->0, k0, s0, g0, kw, sw, gw), kw.resets_to(&kr)]
            {
                &&& warmed(warmup->0, k0, s0, g0, kw, sw, gw)
                &&& kw.resets_to(&kr)
                &&& failed_from(kr, sw, gw, e)
            }
    } else {
        failed_from(k0, s0, g0, e)
    }
}

/// The planned chain job left `out` from the warmup kernel `wk0` and state `s0`:
/// the warmup ran, unmeasured, exactly when it has steps; then `build_main` built
/// the measured kernel and measurement from the resulting state, and the measured
/// run went on from that state on the same generator.
pub open spec fn plan_ran_to<State, WK: Kernel<State, DefaultRng>, K: Kernel<State, DefaultRng>, M: Measurement<State>, MB: Fn(ChainId, &State) -> (K, M)>(
    plan: RunPlan,
    chain: u64,
    build_main: MB,
    wk0: WK,
    s0: State,
    out: ChainResult<State, K, M::Output>,
) -> bool {
    let g0 = chain_rng(plan.seed, chain);
    if plan.warmup.max_steps > 0 {
        exists|wk: WK, sw: State, gw: DefaultRng, k: K, m: M|
            #![trigger warmed(plan.warmup, wk0, s0, g0, wk, sw, gw), build_main.ensures((ChainId(chain), &sw), (k, m))]
            {
                &&& warmed(plan.warmup, wk0, s0, g0, wk, sw, gw)
                &&& build_main.ensures((ChainId(chain), &sw), (k, m))
                &&& ran_to(plan.main, k, sw, gw, m, out)
            }
    } else {
        exists|k: K, m: M| #[trigger] build_main.ensures((ChainId(chain), &s0), (k, m)) && ran_to(plan.main, k, s0, g0, m, out)
    }
}

/// The planned chain job failed with `e`: in the warmup, or in the measured run
/// that `build_main` set up from the state the warmup left.
pub open spec fn plan_failed<State, WK: Kernel<State, DefaultRng>, K: Kernel<State, DefaultRng>, M, MB: Fn(ChainId, &State) -> (K, M)>(
    plan: RunPlan,
    chain: u64,
    build_main: MB,
    wk0: WK,
    s0: State,
    e: RmcError,
) -> bool {
    let g0 = chain_rng(plan.seed, chain);
    if plan.warmup.max_steps > 0 {
        ||| failed_from(wk0, s0, g0, e)
        ||| exists|wk: WK, sw: State, gw: DefaultRng, k: K, m: M|
            #![trigger warmed(plan.warmup, wk0, s0, g0, wk, sw, gw), build_main.ensures((ChainId(chain), &sw), (k, m))]
            {
                &&& warmed(plan.warmup, wk0, s0, g0, wk, sw, gw)
                &&& build_main.ensures((ChainId(chain), &sw), (k, m))
                &&& failed_from(k, sw, gw, e)
            }
    } else {
        exists|k: K, m: M| #[trigger] build_main.ensures((ChainId(chain), &s0), (k, m)) && failed_from(k, s0, g0, e)
    }
}

/// One chain of a parallel run: build its state, kernel, measurement and callbacks
/// from the chain id, then run it on the chain's own RNG stream.
pub fn run_chain_job<State, K, M, B, C, CB>(
    seed: SeedSource,
    chain: u64,
    params: SimulationParams,
    build: &B,
    callbacks: &CB,
) -> (r: Result<ChainResult<State, K, M::Output>>)
    where
        K: Kernel<State, DefaultRng>,
        M: Measurement<State>,
        B: Fn(ChainId) -> (State, K, M),
        C: RunCallbacks<SimulationCtx>,
        CB: Fn(ChainId) -> C,
    requires
        forall|c: ChainId| #[trigger] build.requires((c,)),
        forall|c: ChainId| #[trigger] callbacks.requires((c,)),
    ensures
        params.steps_per_cycle == 0 ==> (r matches Err(e) && zero_cycle_error(e)),
        r matches Ok(out) ==> params.steps_per_cycle > 0 && run_accounting(params, out.0, !C::never_stops()),
        r matches Ok(out) ==> stopped_as_asked::<C>(params, out.0),
        r matches Ok(out) ==> exists|s0: State, k0: K, m0: M|
            #[trigger] build.ensures((ChainId(chain),), (s0, k0, m0)) && ran_to(params, k0, s0, chain_rng(seed, chain), m0, out),
        params.steps_per_cycle > 0 ==> (r matches Err(e) ==> exists|s0: State, k0: K, m0: M|
            #[trigger] build.ensures((ChainId(chain),), (s0, k0, m0)) && failed_from(k0, s0, chain_rng(seed, chain), e)),
{
    let chain_id = ChainId(chain);
    let mut rng = seed.rng_for(chain_id);
    let built = build(chain_id);
    let ghost g0 = rng;
    let (state, mut kernel, measurement) = built;
    let ghost s0 = state;
    let ghost k0 = kernel;
    let ghost m0 = measurement;
    let mut cb = callbacks(chain_id);
    match run_typed_with_callbacks(state, &mut rng, &mut kernel, measurement, params, &mut cb) {
        Ok((state, stats, output)) => {
            proof {
                assert(build.ensures((chain_id,), (s0, k0, m0)));
                assert(finished_run::<State, DefaultRng, K, M>(params, k0, s0, g0, m0, kernel, state, rng, stats, output));
                assert(g0 == chain_rng(seed, chain));
                let out = (stats, output, kernel, state);
                assert(finished_run::<State, DefaultRng, K, M>(params, k0, s0, g0, m0, out.2, out.3, rng, out.0, out.1));
                assert(ran_to(params, k0, s0, chain_rng(seed, chain), m0, (stats, output, kernel, state)));
            }
            Ok((stats, output, kernel, state))
        },
        Err(e) => {
            proof {
                assert(build.ensures((chain_id,), (s0, k0, m0)));
                if params.steps_per_cycle > 0 {
                    let s = choose|s: State| #[trigger] failed_run(k0, s0, g0, kernel, s, rng, e);
                    assert(failed_run(k0, s0, g0, kernel, s, rng, e));
                    assert(failed_from(k0, s0, chain_rng(seed, chain), e));
                }
            }
            Err(e)
        },
    }
}

/// One chain of a planned run: warm the state up with the warmup kernel (skipped
/// when the warmup has no steps), then build the measured kernel from the warm
/// state and run the measured phase on the same RNG stream.
pub fn run_plan_chain_job<State, WK, K, M, WB, MB, WC, MC, WCB, MCB>(
    plan: RunPlan,
    chain: u64,
    build_warmup: &WB,
    build_main: &MB,
    warmup_callbacks: &WCB,
    main_callbacks: &MCB,
) -> (r: Result<ChainResult<State, K, M::Output>>)
    where
        WK: Kernel<State, DefaultRng>,
        K: Kernel<State, DefaultRng>,
        M: Measurement<State>,
        WB: Fn(ChainId) -> (State, WK),
        MB: Fn(ChainId, &State) -> (K, M),
        WC: RunCallbacks<SimulationCtx>,
        MC: RunCallbacks<SimulationCtx>,
        WCB: Fn(ChainId) -> WC,
        MCB: Fn(ChainId) -> MC,
    requires
        forall|c: ChainId| #[trigger] build_warmup.requires((c,)),
        forall|c: ChainId, s: &State| #[trigger] build_main.requires((c, s)),
        forall|c: ChainId| #[trigger] warmup_callbacks.requires((c,)),
        forall|c: ChainId| #[trigger] main_callbacks.requires((c,)),
    ensures
        plan.warmup.max_steps > 0 && plan.warmup.steps_per_cycle == 0 ==> (r matches Err(e) && zero_cycle_error(e)),
        plan.main.steps_per_cycle == 0 ==> r is Err,
        plan.warmup.max_steps == 0 && plan.main.steps_per_cycle == 0 ==> (r matches Err(e) && zero_cycle_error(e)),
        r matches Ok(out) ==> plan.main.steps_per_cycle > 0 && run_accounting(plan.main, out.0, !MC::never_stops()),
        r matches Ok(out) ==> stopped_as_asked::<MC>(plan.main, out.0),
        r matches Ok(out) ==> exists|s0: State, wk0: WK|
            #[trigger] build_warmup.ensures((ChainId(chain),), (s0, wk0)) && plan_ran_to::<State, WK, K, M, MB>(
                plan,
                chain,
                *build_main,
                wk0,
                s0,
                out,
            ),
        plan.main.steps_per_cycle > 0 && (plan.warmup.max_steps > 0 ==> plan.warmup.steps_per_cycle > 0) ==> (
        r matches Err(e) ==> exists|s0: State, wk0: WK|
            #[trigger] build_warmup.ensures((ChainId(chain),), (s0, wk0)) && plan_failed::<State, WK, K, M, MB>(
                plan,
                chain,
                *build_main,
                wk0,
                s0,
                e,
            )),
{
    let chain_id = ChainId(chain);
    let mut rng = plan.seed.rng_for(chain_id);
    let built = build_warmup(chain_id);
    let ghost g0 = rng;
    let (mut state, mut warmup_kernel) = built;
    let ghost s0 = state;
    let ghost wk0 = warmup_kernel;
    proof {
        assert(build_warmup.ensures((chain_id,), (s0, wk0)));
        assert(g0 == chain_rng(plan.seed, chain));
    }
    if plan.warmup.max_steps > 0 {
        let mut cb = warmup_callbacks(chain_id);
        match run_typed_with_callbacks(state, &mut rng, &mut warmup_kernel, NullMeasurement, plan.warmup, &mut cb) {
            Ok((warm_state, _stats, _output)) => {
                proof {
                    assert(warmed(plan.warmup, wk0, s0, g0, warmup_kernel, warm_state, rng));
                }
                state = warm_state;
            },
            Err(e) => {
                proof {
                    if plan.warmup.steps_per_cycle > 0 {
                        let s = choose|s: State| #[trigger] failed_run(wk0, s0, g0, warmup_kernel, s, rng, e);
                        assert(failed_from(wk0, s0, g0, e));
                    }
                }
                return Err(e);
            },
        }
    }
    let ghost wk = warmup_kernel;
    let ghost sw = state;
    let ghost gw = rng;
    let (mut kernel, measurement) = build_main(chain_id, &state);
    let ghost k1 = kernel;
    let ghost m1 = measurement;
    proof {
        assert(build_main.ensures((chain_id, &sw), (k1, m1)));
        if plan.warmup.max_steps > 0 {
            assert(warmed(plan.warmup, wk0, s0, g0, wk, sw, gw));
        } else {
            assert(sw == s0 && gw == g0);
        }
    }
    let mut cb = main_callbacks(chain_id);
    match run_typed_with_callbacks(state, &mut rng, &mut kernel, measurement, plan.main, &mut cb) {
        Ok((state, stats, output)) => {
            let out = (stats, output, kernel, state);
            proof {
                assert(finished_run::<State, DefaultRng, K, M>(plan.main, k1, sw, gw, m1, out.2, out.3, rng, out.0, out.1));
                assert(ran_to(plan.main, k1, sw, gw, m1, out));
                assert(plan_ran_to::<State, WK, K, M, MB>(plan, chain, *build_main, wk0, s0, out));
            }
            Ok(out)
        },
        Err(e) => {
            proof {
                if plan.main.steps_per_cycle > 0 {
                    let s = choose|s: State| #[trigger] failed_run(k1, sw, gw, kernel, s, rng, e);
                    assert(failed_from(k1, sw, gw, e));
                    assert(plan_failed::<State, WK, K, M, MB>(plan, chain, *build_main, wk0, s0, e));
                }
            }
            Err(e)
        },
    }
}

/// One chain of a builder-driven run: build the chain, run the optional warmup with
/// no measurement and clear the kernel's counters after it, then run the measured
/// phase on the same RNG stream and kernel.
pub fn run_warm_chain_job<State, K, M, B, C, WC, CB, WCB>(
    seed: SeedSource,
    chain: u64,
    warmup: Option<SimulationParams>,
    params: SimulationParams,
    build: &B,
    callbacks: &CB,
    warmup_callbacks: &WCB,
) -> (r: Result<ChainResult<State, K, M::Output>>)
    where
        K: Kernel<State, DefaultRng>,
        M: Measurement<State>,
        B: Fn(ChainId) -> (State, K, M),
        C: RunCallbacks<SimulationCtx>,
        WC: RunCallbacks<SimulationCtx>,
        CB: Fn(ChainId) -> C,
        WCB: Fn(ChainId) -> WC,
    requires
        forall|c: ChainId| #[trigger] build.requires((c,)),
        forall|c: ChainId| #[trigger] callbacks.requires((c,)),
        forall|c: ChainId| #[trigger] warmup_callbacks.requires((c,)),
    ensures
        (warmup matches Some(w) && w.max_steps > 0 && w.steps_per_cycle == 0) ==> (r matches Err(e) && zero_cycle_error(e)),
        params.steps_per_cycle == 0 ==> r is Err,
        !warms_up(warmup) && params.steps_per_cycle == 0 ==> (r matches Err(e) && zero_cycle_error(e)),
        r matches Ok(out) ==> params.steps_per_cycle > 0 && run_accounting(params, out.0, !C::never_stops()),
        r matches Ok(out) ==> stopped_as_asked::<C>(params, out.0),
        r matches Ok(out) ==> exists|s0: State, k0: K, m0: M|
            #[trigger] build.ensures((ChainId(chain),), (s0, k0, m0)) && warm_ran_to(
                warmup,
                params,
                k0,
                s0,
                chain_rng(seed, chain),
                m0,
                out,
            ),
        params.steps_per_cycle > 0 && (warms_up(warmup) ==> warmup->0.steps_per_cycle > 0) ==> (
        r matches Err(e) ==> exists|s0: State, k0: K, m0: M|
            #[trigger] build.ensures((ChainId(chain),), (s0, k0, m0)) && warm_failed(
                warmup,
                k0,
                s0,
                chain_rng(seed, chain),
                e,
            )),
{
    let chain_id = ChainId(chain);
    let mut rng = seed.rng_for(chain_id);
    let built = build(chain_id);
    let ghost g0 = rng;
    let (mut state, mut kernel, measurement) = built;
    let ghost s0 = state;
    let ghost k0 = kernel;
    let ghost m0 = measurement;
    let ghost mut kw = k0;
    proof {
        assert(build.ensures((chain_id,), (s0, k0, m0)));
        assert(g0 == chain_rng(seed, chain));
    }
    if let Some(w) = warmup {
        if w.max_steps > 0 {
            let mut cb = warmup_callbacks(chain_id);
            match run_typed_with_callbacks(state, &mut rng, &mut kernel, NullMeasurement, w, &mut cb) {
                Ok((warm_state, _stats, _output)) => {
                    proof {
                        kw = kernel;
                        assert(warmed(w, k0, s0, g0, kw, warm_state, rng));
                    }
                    state = warm_state;
                    kernel.reset_stats();
                },
                Err(e) => {
                    proof {
                        if w.steps_per_cycle > 0 {
                            let s = choose|s: State| #[trigger] failed_run(k0, s0, g0, kernel, s, rng, e);
                            assert(failed_from(k0, s0, g0, e));
                        }
                    }
                    return Err(e);
                },
            }
        }
    }
    let ghost sw = state;
    let ghost gw = rng;
    let ghost kr = kernel;
    proof {
        if warms_up(warmup) {
            assert(warmed(warmup->0, k0, s0, g0, kw, sw, gw) && kw.resets_to(&kr));
        } else {
            assert(kr == k0 && sw == s0 && gw == g0);
        }
    }
    let mut cb = callbacks(chain_id);
    match run_typed_with_callbacks(state, &mut rng, &mut kernel, measurement, params, &mut cb) {
        Ok((state, stats, output)) => {
            let out = (stats, output, kernel, state);
            proof {
                assert(finished_run::<State, DefaultRng, K, M>(params, kr, sw, gw, m0, out.2, out.3, rng, out.0, out.1));
                assert(ran_to(params, kr, sw, gw, m0, out));
                assert(warm_ran_to(warmup, params, k0, s0, g0, m0, out));
            }
            Ok(out)
        },
        Err(e) => {
            proof {
                if params.steps_per_cycle > 0 {
                    let s = choose|s: State| #[trigger] failed_run(kr, sw, gw, kernel, s, rng, e);
                    assert(failed_from(kr, sw, gw, e));
                    assert(warm_failed(warmup, k0, s0, g0, e));
                }
            }
            Err(e)
        },
    }
}

} // verus!
