use toutates::manager::{
    ends_profiling, load_step, ring_gauges, stop_profiling_after, to_gauge, LoadAction, LoadPhase,
    RingGauges, RoundRobin,
};
use toutates::model::{AllocatorKind, LoadError, ModelRepositoryConfig, Profiling};
use toutates::shapes::ShapeOverrides;
use toutates::supertensor::SuperTensorMetricsSnapshot;

#[test]
fn sessions_are_assigned_in_turn_over_all_models() {
    let mut robin = RoundRobin::new();
    let sessions = [("bert", 0), ("bert", 1), ("bert", 2), ("gpt", 0), ("gpt", 1)];
    let flat: Vec<(String, usize)> = sessions
        .iter()
        .map(|(model, i)| robin.assign(model, *i, 2))
        .map(|s| (s.executor_id, s.starter))
        .collect();
    assert_eq!(
        flat,
        vec![
            (String::from("bert-executor-0"), 0),
            (String::from("bert-executor-1"), 1),
            (String::from("bert-executor-2"), 0),
            (String::from("gpt-executor-0"), 1),
            (String::from("gpt-executor-1"), 0),
        ]
    );
    assert_eq!(robin.count, 5);
}

#[test]
fn the_counter_of_sessions_wraps() {
    let mut robin = RoundRobin { count: usize::MAX };
    assert_eq!(robin.next_starter(2), 1);
    assert_eq!(robin.count, 0);
    assert_eq!(robin.next_starter(2), 0);
}

#[test]
fn gauges_show_what_they_can() {
    assert_eq!(to_gauge(7), 7);
    assert_eq!(to_gauge(usize::MAX), i64::MAX);
    let snapshot = SuperTensorMetricsSnapshot {
        tail_index: 1,
        in_use_index: 2,
        head_index: usize::MAX,
        executors_in_use: 3,
    };
    assert_eq!(
        ring_gauges(&snapshot),
        RingGauges {
            executors_in_use: 3,
            ring_tail_index: 1,
            ring_in_use_index: 2,
            ring_head_index: i64::MAX,
        }
    );
}

#[test]
fn profiling_ends_at_its_batch() {
    let mut config = ModelRepositoryConfig {
        num_executors: 1,
        batch_size: 4,
        capacity: 4,
        allocator: AllocatorKind::Cpu,
        input_shapes: ShapeOverrides::new(),
        output_shapes: ShapeOverrides::new(),
        profiling: None,
    };
    assert_eq!(stop_profiling_after(&config), None);
    config.profiling = Some(Profiling {
        file_prefix: String::from("p"),
        stop_after_batches: Some(3),
    });
    let stop = stop_profiling_after(&config);
    assert_eq!(stop, Some(3));
    assert!(!ends_profiling(2, stop));
    assert!(ends_profiling(3, stop));
    assert!(!ends_profiling(4, stop));
    assert!(!ends_profiling(3, None));
}

#[test]
fn sessions_are_spread_evenly_over_all_calls() {
    let mut robin = RoundRobin::new();
    let mut counts = [0usize; 3];
    for sessions in [1, 4, 0, 2, 7, 3] {
        for i in 0..sessions {
            counts[robin.assign("m", i, 3).starter] += 1;
        }
        assert!(counts.iter().max().unwrap() - counts.iter().min().unwrap() <= 1);
    }
    assert_eq!(counts, [6, 6, 5]);
}

#[test]
fn a_profile_is_ended_once() {
    let ends = |n: u64, stop: Option<u64>| (1..=n).filter(|i| ends_profiling(*i, stop)).count();
    assert_eq!(ends(10, Some(4)), 1);
    assert_eq!(ends(10, Some(10)), 1);
    assert_eq!(ends(10, Some(11)), 0);
    assert_eq!(ends(10, Some(0)), 0);
    assert_eq!(ends(10, None), 0);
}

fn named(action: &LoadAction) -> String {
    match action {
        LoadAction::BuildSession { session } => format!("build {session}"),
        LoadAction::CreateAllocator => String::from("allocate"),
        LoadAction::MakeRing => String::from("ring"),
        LoadAction::WarmUp { session } => format!("warm {session}"),
        LoadAction::Publish => String::from("publish"),
        LoadAction::Send { session } => format!("send {session}"),
        LoadAction::Done => String::from("done"),
        LoadAction::Fail(_) => String::from("fail"),
        LoadAction::Idle => String::from("idle"),
    }
}

#[test]
fn a_model_is_loaded_in_order() {
    let mut phase = LoadPhase::Building(0);
    let mut actions = vec![];
    while phase != LoadPhase::Loaded {
        let (next, action) = load_step(phase, 2, Ok(()));
        actions.push(named(&action));
        phase = next;
    }
    assert_eq!(
        actions,
        vec![
            "build 1", "allocate", "ring", "warm 0", "warm 1", "publish", "send 0", "send 1", "done"
        ]
    );
    assert_eq!(load_step(phase, 2, Err(LoadError::SuperTensorBuild)).0, LoadPhase::Loaded);
}

#[test]
fn a_load_that_fails_goes_no_further() {
    for phase in [
        LoadPhase::Building(0),
        LoadPhase::Allocating,
        LoadPhase::MakingRing,
        LoadPhase::Warming(1),
        LoadPhase::Publishing,
        LoadPhase::Sending(0),
    ] {
        let (next, action) = load_step(phase, 2, Err(LoadError::DispatchFailed(String::from("gone"))));
        assert_eq!(next, LoadPhase::Failed);
        match action {
            LoadAction::Fail(LoadError::DispatchFailed(e)) => assert_eq!(e, "gone"),
            _ => panic!("expected a failure"),
        }
        let (next, action) = load_step(next, 2, Ok(()));
        assert_eq!((next, named(&action)), (LoadPhase::Failed, String::from("idle")));
    }
}
