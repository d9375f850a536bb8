//! Monte Carlo simulation of random walks over a small directed room graph.
//!
//! A walk starts in a room, repeatedly picks one outgoing door uniformly at
//! random, and ends when the chosen door is the exit sentinel; its outcome is
//! the number of doors traversed. Trials are partitioned across workers, each
//! worker folds its outcomes into a partial statistics record, and the records
//! are merged into exact integer moments (count, sum, sum of squares) and an
//! optional dense histogram.

pub mod graph;
pub mod hist;
pub mod rng;
pub mod sched;
pub mod stats;
pub mod walk;

pub use graph::ConfigError;
pub use graph::Door;
pub use graph::Graph;
pub use graph::Room;
pub use hist::Histogram;
pub use sched::OutputConfig;
pub use sched::check_config;
pub use sched::partition;
pub use sched::run_worker;
pub use stats::AggregateStats;
pub use stats::StatError;
pub use stats::ThreadResult;
pub use stats::aggregate;
pub use walk::random_walk;
