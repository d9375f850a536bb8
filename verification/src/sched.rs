//! The scheduler's verified parts: validating the run configuration,
//! splitting the requested trial count over the workers, and one worker's
//! run, which folds its walks into a partial record. Launching the workers
//! concurrently and joining them is the caller's concern; merging what they
//! hand back is the aggregator's.

use vstd::prelude::*;
use std::io::Write;
use vstd::arithmetic::div_mod::lemma_fundamental_div_mod;
use crate::graph::ConfigError;
use crate::graph::Graph;
use crate::rng::fresh_rng;
use crate::stats::StatError;
use crate::stats::ThreadResult;
use crate::walk::random_walk;

verus! {

/// Which outputs a run was asked for; any subset may be requested.
#[derive(Clone, Copy, PartialEq, Eq, Structural, Debug)]
pub struct OutputConfig {
    /// One line per trial with that trial's step count.
    pub raw: bool,
    /// The mean walk length.
    pub mean: bool,
    /// The standard deviation of the walk length.
    pub stdev: bool,
    /// The dense histogram of walk lengths.
    pub counts: bool,
}

/// The sum of a sequence of per-worker trial counts.
pub open spec fn seq_sum(s: Seq<usize>) -> int
    decreases s.len(),
{
    if s.len() == 0 {
        0
    } else {
        seq_sum(s.drop_last()) + s.last()
    }
}

/// Validates the run configuration, before any worker is launched: the trial
/// and worker counts must be positive and the starting room must be a room
/// of the graph, checked in that order.
pub fn check_config(n: usize, k: usize, n_rooms: usize, start: usize) -> (r: Result<
    (),
    ConfigError,
>)
    ensures
        r is Ok <==> (n >= 1 && k >= 1 && start < n_rooms),
        n == 0 ==> r == Err::<(), ConfigError>(ConfigError::ZeroTrials),
        n >= 1 && k == 0 ==> r == Err::<(), ConfigError>(ConfigError::ZeroWorkers),
        n >= 1 && k >= 1 && start >= n_rooms ==> r == Err::<(), ConfigError>(
            ConfigError::UnknownStartingRoom,
        ),
{
    if n == 0 {
        Err(ConfigError::ZeroTrials)
    } else if k == 0 {
        Err(ConfigError::ZeroWorkers)
    } else if start >= n_rooms {
        Err(ConfigError::UnknownStartingRoom)
    } else {
        Ok(())
    }
}

/// Splits `n` trials over `k` workers: each of the first `k - 1` workers is
/// assigned `floor(n / k)` trials and the last takes the remainder, so the
/// counts cover all `n` trials exactly, with no overlap and no gap. When the
/// remainder is at most one, every count is `floor(n / k)` or one more.
#[verifier::loop_isolation(false)]
pub fn partition(n: usize, k: usize) -> (r: Vec<usize>)
    requires
        1 <= k,
    ensures
        r@.len() == k,
        seq_sum(r@) == n,
        forall|i: int| 0 <= i < k - 1 ==> r@[i] == n as int / k as int,
        r@[k - 1] == n as int / k as int + n as int % k as int,
        n % k <= 1 ==> forall|i: int|
            0 <= i < k ==> r@[i] == n as int / k as int || r@[i] == n as int / k as int + 1,
{
    let base = n / k;
    let rem = n % k;
    proof {
        lemma_fundamental_div_mod(n as int, k as int);
        assert(k as int * base as int == (k as int - 1) * base as int + base as int)
            by (nonlinear_arith);
        assert((k as int - 1) * base as int >= 0) by (nonlinear_arith)
            requires
                k as int >= 1,
                base as int >= 0,
        ;
    }
    let mut r: Vec<usize> = Vec::new();
    let mut i: usize = 0;
    while i < k - 1
        invariant
            i <= k - 1,
            r@.len() == i,
            forall|x: int| 0 <= x < i ==> r@[x] == base,
            seq_sum(r@) == i as int * base as int,
        decreases k - 1 - i,
    {
        let ghost before = r@;
        r.push(base);
        proof {
            assert(r@.drop_last() =~= before);
            assert((i as int + 1) * base as int == i as int * base as int + base as int)
                by (nonlinear_arith);
        }
        i += 1;
    }
    let last = base + rem;
    let ghost before = r@;
    r.push(last);
    proof {
        assert(r@.drop_last() =~= before);
    }
    r
}

/// Relies on std::io's `writeln` to standard output: prints one outcome on a
/// line of its own, as the raw output stream asks; nothing comes back.
#[verifier::external_body]
fn emit_raw(value: u64) {
    let mut out = std::io::stdout();
    let _ = writeln!(out, "{}", value);
}

/// One worker: runs `count` independent walks from `start`, emits each
/// outcome raw when that output was requested, and folds every outcome into
/// a fresh partial record. The worker's random source is seeded here,
/// independently of every other worker's. On success the record holds
/// exactly `count` trials, a sum of at least one step per trial and at most
/// the sum of squares, and, when requested, a histogram of exactly `count`
/// occurrences; a zero-trial assignment always succeeds, with an empty
/// record. Only an accumulator overflow aborts the worker.
#[verifier::loop_isolation(false)]
pub fn run_worker(graph: &Graph, start: usize, count: usize, config: OutputConfig) -> (r: Result<
    ThreadResult,
    StatError,
>)
    requires
        graph.wf(),
        start < graph.rooms@.len(),
    ensures
        r matches Ok(t) ==> ({
            &&& t.wf()
            &&& t.trials == count
            &&& t.sum >= count
            &&& t.sum <= t.sum_of_squares
            &&& (t.counts is Some <==> config.counts)
            &&& (config.counts ==> t.hist_mass() == count)
        }),
        count == 0 ==> r is Ok,
        r is Err ==> r == Err::<ThreadResult, StatError>(StatError::Overflow),
{
    let mut rng = fresh_rng();
    let mut acc = ThreadResult::new(config.counts);
    let mut i: usize = 0;
    while i < count
        invariant
            i <= count,
            acc.wf(),
            acc.trials == i,
            acc.sum >= i,
            acc.sum <= acc.sum_of_squares,
            acc.counts is Some <==> config.counts,
            config.counts ==> acc.hist_mass() == i,
        decreases count - i,
    {
        let outcome = random_walk(graph, start, &mut rng);
        if config.raw {
            emit_raw(outcome);
        }
        proof {
            assert(outcome <= outcome * outcome) by (nonlinear_arith)
                requires
                    outcome >= 1,
            ;
        }
        let res = acc.record(outcome);
        match res {
            Ok(()) => {},
            Err(e) => {
                return Err(e);
            },
        }
        i += 1;
    }
    Ok(acc)
}

} // verus!
