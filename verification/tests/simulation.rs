use room_walk::AggregateStats;
use room_walk::ConfigError;
use room_walk::Door;
use room_walk::Graph;
use room_walk::Histogram;
use room_walk::OutputConfig;
use room_walk::Room;
use room_walk::StatError;
use room_walk::ThreadResult;
use room_walk::aggregate;
use room_walk::check_config;
use room_walk::partition;
use room_walk::random_walk;
use room_walk::rng::fresh_rng;
use room_walk::run_worker;

// The six-room default graph: A, B, C, D, E, F as indices 0 through 5.
fn six_rooms() -> Graph {
    let rooms = vec![
        Room::new(vec![Door::To(5), Door::To(3)]),
        Room::new(vec![Door::To(3)]),
        Room::new(vec![Door::Exit]),
        Room::new(vec![Door::To(0), Door::To(1), Door::To(2), Door::To(4)]),
        Room::new(vec![Door::To(3), Door::To(5)]),
        Room::new(vec![Door::Exit]),
    ];
    Graph::new(rooms).expect("the default graph is valid")
}

fn quiet() -> OutputConfig {
    OutputConfig { raw: false, mean: false, stdev: false, counts: false }
}

#[test]
fn partition_covers_all_trials() {
    let counts = partition(10, 4);
    assert_eq!(counts, vec![2, 2, 2, 4]);
    let total: usize = counts.iter().sum();
    assert_eq!(total, 10);
}

#[test]
fn partition_balanced_when_remainder_small() {
    assert_eq!(partition(12, 4), vec![3, 3, 3, 3]);
    assert_eq!(partition(13, 4), vec![3, 3, 3, 4]);
    assert_eq!(partition(7, 1), vec![7]);
}

#[test]
fn partition_more_workers_than_trials() {
    let counts = partition(2, 5);
    assert_eq!(counts, vec![0, 0, 0, 0, 2]);
    let total: usize = counts.iter().sum();
    assert_eq!(total, 2);
}

#[test]
fn partition_zero_trials() {
    let counts = partition(0, 3);
    assert_eq!(counts, vec![0, 0, 0]);
}

#[test]
fn walk_from_exit_only_room_takes_one_step() {
    let graph = Graph::new(vec![Room::new(vec![Door::Exit])]).unwrap();
    let mut rng = fresh_rng();
    for _ in 0..20 {
        assert_eq!(random_walk(&graph, 0, &mut rng), 1);
    }
}

#[test]
fn walk_outcome_is_at_least_one() {
    let graph = six_rooms();
    let mut rng = fresh_rng();
    for start in 0..6 {
        let steps = random_walk(&graph, start, &mut rng);
        assert!(steps >= 1);
    }
}

#[test]
fn random_door_picks_a_listed_door() {
    let room = Room::new(vec![Door::To(1), Door::Exit]);
    let mut rng = fresh_rng();
    for _ in 0..20 {
        let d = room.random_door(&mut rng);
        assert!(d == Door::To(1) || d == Door::Exit);
    }
}

#[test]
fn graph_rejects_room_without_doors() {
    let rooms = vec![Room::new(vec![Door::Exit]), Room::new(vec![])];
    assert!(matches!(Graph::new(rooms), Err(ConfigError::RoomWithoutDoors)));
}

#[test]
fn graph_rejects_unknown_door_target() {
    let rooms = vec![Room::new(vec![Door::To(9)])];
    assert!(matches!(Graph::new(rooms), Err(ConfigError::DoorToUnknownRoom)));
}

#[test]
fn config_rejects_bad_inputs() {
    assert!(matches!(check_config(0, 2, 6, 0), Err(ConfigError::ZeroTrials)));
    assert!(matches!(check_config(5, 0, 6, 0), Err(ConfigError::ZeroWorkers)));
    assert!(matches!(check_config(5, 2, 6, 9), Err(ConfigError::UnknownStartingRoom)));
    assert!(check_config(5, 2, 6, 0).is_ok());
}

#[test]
fn zero_trials_yield_insufficient_samples() {
    let agg = aggregate(&Vec::new()).unwrap();
    assert_eq!(agg.trials, 0);
    assert!(matches!(agg.mean_ratio(), Err(StatError::InsufficientSamples)));
    assert!(matches!(agg.variance_ratio(), Err(StatError::InsufficientSamples)));
}

#[test]
fn one_trial_has_mean_but_no_stdev() {
    let mut t = ThreadResult::new(false);
    t.record(4).unwrap();
    let agg = aggregate(&vec![t]).unwrap();
    assert_eq!(agg.mean_ratio(), Ok((4, 1)));
    assert!(matches!(agg.variance_ratio(), Err(StatError::InsufficientSamples)));
}

#[test]
fn mean_and_stdev_of_one_to_five() {
    // outcomes 1..=5 split arbitrarily across two workers
    let mut a = ThreadResult::new(true);
    a.record(1).unwrap();
    a.record(2).unwrap();
    let mut b = ThreadResult::new(true);
    b.record(3).unwrap();
    b.record(4).unwrap();
    b.record(5).unwrap();
    let agg = aggregate(&vec![a, b]).unwrap();
    assert_eq!(agg.trials, 5);
    assert_eq!(agg.sum, 15);
    assert_eq!(agg.sum_of_squares, 55);
    let (sum, trials) = agg.mean_ratio().unwrap();
    let mean = sum as f64 / trials as f64;
    assert_eq!(mean, 3.0);
    let (num, den) = agg.variance_ratio().unwrap();
    assert_eq!(num, 50);
    assert_eq!(den, 20);
    let stdev = (num as f64 / den as f64).sqrt();
    assert!((stdev - 1.5811).abs() < 1e-3);
}

#[test]
fn aggregation_order_does_not_matter() {
    let mut a = ThreadResult::new(true);
    a.record(1).unwrap();
    a.record(7).unwrap();
    let mut b = ThreadResult::new(true);
    b.record(7).unwrap();
    b.record(2).unwrap();
    b.record(2).unwrap();
    let mut a2 = ThreadResult::new(true);
    a2.record(1).unwrap();
    a2.record(7).unwrap();
    let mut b2 = ThreadResult::new(true);
    b2.record(7).unwrap();
    b2.record(2).unwrap();
    b2.record(2).unwrap();
    let one = aggregate(&vec![a, b]).unwrap();
    let two = aggregate(&vec![b2, a2]).unwrap();
    assert_eq!(one.trials, two.trials);
    assert_eq!(one.sum, two.sum);
    assert_eq!(one.sum_of_squares, two.sum_of_squares);
    for v in 0..10 {
        assert_eq!(one.counts.get(v), two.counts.get(v));
    }
}

#[test]
fn histogram_dense_report_covers_gaps() {
    let mut h = Histogram::new();
    h.increment(1).unwrap();
    h.increment(1).unwrap();
    h.increment(3).unwrap();
    assert_eq!(h.min_key(), Some(1));
    assert_eq!(h.max_key(), Some(3));
    assert_eq!(h.dense_counts(1, 3), vec![2, 0, 1]);
    assert_eq!(h.get(2), 0);
    assert_eq!(h.get(3), 1);
}

#[test]
fn empty_histogram_has_no_keys() {
    let h = Histogram::new();
    assert_eq!(h.min_key(), None);
    assert_eq!(h.max_key(), None);
    assert_eq!(h.get(0), 0);
}

#[test]
fn merged_histogram_adds_buckets() {
    let mut a = ThreadResult::new(true);
    a.record(2).unwrap();
    a.record(2).unwrap();
    let mut b = ThreadResult::new(true);
    b.record(2).unwrap();
    b.record(5).unwrap();
    let agg = aggregate(&vec![a, b]).unwrap();
    assert_eq!(agg.counts.get(2), 3);
    assert_eq!(agg.counts.get(5), 1);
    assert_eq!(agg.counts.dense_counts(2, 5), vec![3, 0, 0, 1]);
}

#[test]
fn record_reports_overflow() {
    let mut t = ThreadResult::new(false);
    // the square of this outcome does not fit a u64
    assert!(matches!(t.record(u64::MAX), Err(StatError::Overflow)));
    assert_eq!(t.trials, 0);
    // two squares of the largest square-safe outcome do not fit either
    let big = u32::MAX as u64;
    t.record(big).unwrap();
    assert!(matches!(t.record(big), Err(StatError::Overflow)));
    assert_eq!(t.trials, 1);
}

#[test]
fn worker_runs_assigned_trials() {
    let graph = six_rooms();
    let config = OutputConfig { counts: true, ..quiet() };
    let t = run_worker(&graph, 0, 50, config).unwrap();
    assert_eq!(t.trials, 50);
    let h = t.counts.as_ref().unwrap();
    let lo = h.min_key().unwrap();
    let hi = h.max_key().unwrap();
    let total: u64 = h.dense_counts(lo, hi).iter().sum();
    assert_eq!(total, 50);
    assert!(t.sum >= 50);
}

#[test]
fn worker_without_histogram_keeps_none() {
    let graph = six_rooms();
    let t = run_worker(&graph, 2, 10, quiet()).unwrap();
    assert_eq!(t.trials, 10);
    assert!(t.counts.is_none());
    // room C's only door is the exit, so every outcome is one step
    assert_eq!(t.sum, 10);
    assert_eq!(t.sum_of_squares, 10);
}

#[test]
fn worker_with_zero_trials_succeeds_empty() {
    let graph = six_rooms();
    let config = OutputConfig { counts: true, ..quiet() };
    let t = run_worker(&graph, 0, 0, config).unwrap();
    assert_eq!(t.trials, 0);
    assert_eq!(t.sum, 0);
    assert_eq!(t.sum_of_squares, 0);
    assert_eq!(t.counts.as_ref().unwrap().min_key(), None);
}

#[test]
fn full_run_over_partition() {
    let graph = six_rooms();
    let n: usize = 100;
    let counts = partition(n, 3);
    let mut results: Vec<ThreadResult> = Vec::new();
    for c in counts {
        results.push(run_worker(&graph, 0, c, quiet()).unwrap());
    }
    let agg = aggregate(&results).unwrap();
    assert_eq!(agg.trials as usize, n);
    let (sum, trials) = agg.mean_ratio().unwrap();
    assert!(sum as f64 / trials as f64 >= 1.0);
}

#[test]
fn aggregate_reports_overflow() {
    let big = u32::MAX as u64;
    let mut a = ThreadResult::new(false);
    a.record(big).unwrap();
    let mut b = ThreadResult::new(false);
    b.record(big).unwrap();
    // the two sums of squares cannot be added within a u64
    assert!(matches!(aggregate(&vec![a, b]), Err(StatError::Overflow)));
}
