use rmc::config::default_max_order_gpu;
use rmc::mc::names::{scoped_path, MeasurementNames};
use rmc::mc::{step_update, SimulationParams, UpdateStats, Update, Verdict};
use rmc::minimal::{measured_params, params, Mode};
use rmc::RmcError;

#[test]
fn error_text_prefixes_the_kind() {
    assert_eq!(RmcError::Message("plain".to_string()).text(), "plain");
    assert_eq!(
        RmcError::InvalidArgument("x".to_string()).text(),
        "invalid argument: x"
    );
    assert_eq!(RmcError::InvalidState("y".to_string()).text(), "invalid state: y");
    assert_eq!(
        RmcError::DuplicateResult("a/b".to_string()).text(),
        "duplicate result path: a/b"
    );
}

#[test]
fn simulation_params_defaults_and_validation() {
    let defaults = SimulationParams::default();
    assert_eq!(
        defaults,
        SimulationParams {
            max_steps: 1,
            steps_per_cycle: 1,
            cycles_per_check: 1
        }
    );
    assert!(defaults.validate().is_ok());
    let zero = SimulationParams {
        steps_per_cycle: 0,
        ..defaults
    };
    assert_eq!(
        zero.validate().unwrap_err().text(),
        "invalid argument: steps_per_cycle must be > 0"
    );
}

struct Fixed(Verdict);

impl Update<(), ()> for Fixed {
    fn attempt(&mut self, _state: &mut (), _rng: &mut ()) -> Verdict {
        self.0
    }

    fn accept(&mut self, _state: &mut ()) {}

    fn reject(&mut self, _state: &mut ()) {}
}

#[test]
fn step_update_counts_each_verdict() {
    let mut stats = UpdateStats::default();
    for verdict in [Verdict::Accepted, Verdict::Rejected, Verdict::Impossible, Verdict::Accepted] {
        let outcome = step_update(&mut (), &mut (), 3, &mut Fixed(verdict), &mut stats).unwrap();
        assert_eq!(outcome.update_index, 3);
        assert_eq!(outcome.accepted, verdict == Verdict::Accepted);
        assert_eq!(outcome.impossible, verdict == Verdict::Impossible);
    }
    assert_eq!(
        stats,
        UpdateStats {
            nprops: 4,
            naccs: 2,
            nimps: 1
        }
    );
}

#[test]
fn step_update_refuses_to_overflow_counters() {
    let mut stats = UpdateStats {
        nprops: u64::MAX,
        naccs: 0,
        nimps: 0,
    };
    let err = step_update(&mut (), &mut (), 0, &mut Fixed(Verdict::Accepted), &mut stats)
        .unwrap_err();
    assert_eq!(err.text(), "invalid state: update statistics overflow");
    assert_eq!(stats.nprops, u64::MAX);
}

#[test]
fn measurement_names_reject_empty_and_duplicate_names() {
    let mut names = MeasurementNames::new();
    assert!(names.is_empty());
    assert_eq!(names.register("energy").unwrap(), 0);
    assert_eq!(names.register("mag").unwrap(), 1);
    assert_eq!(
        names.register("energy").unwrap_err().text(),
        "invalid argument: measurement 'energy' is already registered"
    );
    assert_eq!(
        names.register("").unwrap_err().text(),
        "invalid argument: measurement name must be non-empty"
    );
    assert_eq!(names.len(), 2);
    assert_eq!(names.find("mag"), Some(1));
    assert_eq!(names.find("other"), None);
    names.refresh_active();
    assert_eq!(names.active_indices(), &[0, 1]);
    names.clear_active();
    assert!(names.active_indices().is_empty());
}

#[test]
fn scoped_sink_paths_join_with_a_slash() {
    assert_eq!(scoped_path("energy", "moments"), "energy/moments");
    assert_eq!(scoped_path("mag", ""), "mag/");
}

#[test]
fn benchmark_modes_and_parameters() {
    assert_eq!(Mode::parse("full"), Some(Mode::Full));
    assert_eq!(Mode::parse("bare"), Some(Mode::Bare));
    assert_eq!(Mode::parse("Full"), None);
    assert_eq!(Mode::Full.as_str(), "full");
    assert_eq!(Mode::Bare.as_str(), "bare");
    assert_eq!(
        params(10),
        SimulationParams {
            max_steps: 10,
            steps_per_cycle: 5,
            cycles_per_check: u64::MAX
        }
    );
    assert_eq!(measured_params(10).cycles_per_check, 100_000);
    assert_eq!(default_max_order_gpu(), 256);
}

#[test]
fn name_registry_rejects_empty_and_duplicate_names() {
    let mut names = MeasurementNames::new();
    assert!(matches!(names.register("energy"), Ok(0)));
    assert!(matches!(names.register(""), Err(RmcError::InvalidArgument(_))));
    assert!(matches!(
        names.register("energy"),
        Err(RmcError::InvalidArgument(m)) if m == "measurement 'energy' is already registered"
    ));
    assert!(matches!(names.register("other"), Ok(1)));
    assert_eq!(names.len(), 2);
}
