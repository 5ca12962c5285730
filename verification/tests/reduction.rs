use rand::Rng;
use rmc::mc::parallel::{
    reduce_chains, run_chain_job, run_plan_chain_job, run_warm_chain_job, ParallelConfig, RunPlan,
};
use rmc::mc::{
    Measurement, MetropolisKernel, NoopCallbacks, SimulationParams, SimulationStats,
    SingleUpdateSet, Update, UpdateSet, Verdict,
};
use rmc::random::{ChainId, SeedSource};
use rmc::{Merge, RmcError};

fn params(max_steps: u64, steps_per_cycle: u64) -> SimulationParams {
    SimulationParams {
        max_steps,
        steps_per_cycle,
        cycles_per_check: 1,
    }
}

#[derive(Clone, Copy, Debug)]
struct AddOne;

impl<R: Rng> Update<i64, R> for AddOne {
    fn attempt(&mut self, _state: &mut i64, _rng: &mut R) -> Verdict {
        Verdict::Accepted
    }

    fn accept(&mut self, state: &mut i64) {
        *state += 1;
    }

    fn reject(&mut self, _state: &mut i64) {}
}

#[derive(Default)]
struct Sum {
    total: i64,
}

impl Measurement<i64> for Sum {
    type Output = i64;

    fn measure(&mut self, state: &i64) {
        self.total += *state;
    }

    fn finish(self) -> i64 {
        self.total
    }
}

#[test]
fn simulation_stats_merge_is_componentwise_and_order_free() {
    let a = SimulationStats { steps_done: 3, cycles_done: 1 };
    let b = SimulationStats { steps_done: 10, cycles_done: 4 };
    let c = SimulationStats { steps_done: 7, cycles_done: 2 };
    assert_eq!(a.merge(b), SimulationStats { steps_done: 13, cycles_done: 5 });
    assert_eq!(a.merge(b).merge(c), a.merge(b.merge(c)));
    assert_eq!(a.merge(b), b.merge(a));
    assert_eq!(SimulationStats::default().merge(a), a);
    assert_eq!(5u64.merge(6), 11);
    assert_eq!((-4i64).merge(1), -3);
    assert_eq!(2usize.merge(2), 4);
}

#[test]
fn reduce_chains_folds_in_chain_order() {
    let partials: Vec<rmc::Result<(SimulationStats, u64, &str, i32)>> = vec![
        Ok((SimulationStats { steps_done: 2, cycles_done: 1 }, 10, "k0", 0)),
        Ok((SimulationStats { steps_done: 3, cycles_done: 2 }, 20, "k1", 1)),
        Ok((SimulationStats { steps_done: 4, cycles_done: 3 }, 30, "k2", 2)),
    ];
    let report = reduce_chains(partials).unwrap();
    assert_eq!(report.stats, SimulationStats { steps_done: 9, cycles_done: 6 });
    assert_eq!(report.output, 60);
    assert_eq!(report.kernels, vec!["k0", "k1", "k2"]);
    assert_eq!(report.states, vec![0, 1, 2]);
}

#[test]
fn reduce_chains_returns_the_first_failure() {
    let partials: Vec<rmc::Result<(SimulationStats, u64, (), ())>> = vec![
        Ok((SimulationStats::default(), 1, (), ())),
        Err(RmcError::Message("second".to_string())),
        Err(RmcError::Message("third".to_string())),
    ];
    match reduce_chains(partials) {
        Err(err) => assert_eq!(err.text(), "second"),
        Ok(_) => panic!("a failed chain must fail the run"),
    }
    let empty: Vec<rmc::Result<(SimulationStats, u64, (), ())>> = Vec::new();
    match reduce_chains(empty) {
        Err(err) => assert_eq!(err.text(), "invalid state: run produced no chains"),
        Ok(_) => panic!("no chains cannot be reduced"),
    }
}

#[test]
fn parallel_config_and_plan_validation() {
    let bad = ParallelConfig {
        chains: 0,
        seed: SeedSource::new(1),
        params: params(1, 1),
    };
    assert_eq!(bad.validate().unwrap_err().text(), "invalid argument: chains must be > 0");
    let bad_cycle = ParallelConfig {
        chains: 2,
        seed: SeedSource::new(1),
        params: params(1, 0),
    };
    assert_eq!(
        bad_cycle.validate().unwrap_err().text(),
        "invalid argument: steps_per_cycle must be > 0"
    );
    let plan = RunPlan {
        chains: 1,
        seed: SeedSource::new(1),
        warmup: params(0, 0),
        main: params(1, 1),
    };
    assert!(plan.validate().is_err());
    let plan = RunPlan {
        warmup: params(0, 1),
        ..plan
    };
    assert!(plan.validate().is_ok());
}

#[test]
fn chain_jobs_and_reduction_merge_independent_states() {
    let config = ParallelConfig {
        chains: 4,
        seed: SeedSource::new(123),
        params: params(3, 1),
    };
    let build = |chain: ChainId| {
        (
            chain.0 as i64,
            MetropolisKernel::new(SingleUpdateSet::new(AddOne)),
            Sum::default(),
        )
    };
    let callbacks = |_chain: ChainId| NoopCallbacks;
    let partials = (0..config.chains)
        .map(|chain| run_chain_job(config.seed, chain, config.params, &build, &callbacks))
        .collect::<Vec<_>>();
    let report = reduce_chains(partials).unwrap();
    assert_eq!(report.stats.steps_done, 12);
    assert_eq!(report.stats.cycles_done, 12);
    assert_eq!(report.output, 42);
    assert_eq!(report.states, vec![3, 4, 5, 6]);
}

#[test]
fn warm_chain_job_resets_counters_after_warmup() {
    let build = |_chain: ChainId| {
        (
            0i64,
            MetropolisKernel::new(SingleUpdateSet::new(AddOne)),
            Sum::default(),
        )
    };
    let callbacks = |_chain: ChainId| NoopCallbacks;
    let (stats, output, kernel, state) = run_warm_chain_job(
        SeedSource::new(7),
        0,
        Some(params(10, 2)),
        params(6, 2),
        &build,
        &callbacks,
        &callbacks,
    )
    .unwrap();
    assert_eq!(state, 16);
    assert_eq!(stats.steps_done, 6);
    assert_eq!(stats.cycles_done, 3);
    assert_eq!(output, 12 + 14 + 16);
    assert_eq!(kernel.updates().stats()[0].nprops, 6);
}

#[test]
fn plan_chain_job_builds_measured_kernel_from_warm_state() {
    let plan = RunPlan {
        chains: 1,
        seed: SeedSource::new(5),
        warmup: params(4, 1),
        main: params(2, 1),
    };
    let build_warmup =
        |_chain: ChainId| (1i64, MetropolisKernel::new(SingleUpdateSet::new(AddOne)));
    let build_main = |_chain: ChainId, state: &i64| {
        assert_eq!(*state, 5);
        (MetropolisKernel::new(SingleUpdateSet::new(AddOne)), Sum::default())
    };
    let callbacks = |_chain: ChainId| NoopCallbacks;
    let (stats, output, kernel, state) =
        run_plan_chain_job(plan, 0, &build_warmup, &build_main, &callbacks, &callbacks).unwrap();
    assert_eq!(state, 7);
    assert_eq!(stats.steps_done, 2);
    assert_eq!(output, 6 + 7);
    assert_eq!(kernel.updates().stats()[0].nprops, 2);
}

#[derive(Debug, PartialEq)]
struct Histogram(Vec<u64>);

impl Merge for Histogram {
    fn can_merge_with(&self, _other: &Self) -> bool {
        true
    }

    fn merge(self, other: Self) -> Self {
        Histogram(self.0.iter().zip(&other.0).map(|(a, b)| a + b).collect())
    }
}

#[test]
fn reduce_chains_accepts_user_merge_types() {
    let partials: Vec<rmc::Result<(SimulationStats, Histogram, (), ())>> = vec![
        Ok((SimulationStats { steps_done: 1, cycles_done: 1 }, Histogram(vec![1, 0]), (), ())),
        Ok((SimulationStats { steps_done: 1, cycles_done: 1 }, Histogram(vec![0, 2]), (), ())),
    ];
    let report = reduce_chains(partials).unwrap();
    assert_eq!(report.output, Histogram(vec![1, 2]));
    assert_eq!(report.stats, SimulationStats { steps_done: 2, cycles_done: 2 });
}
