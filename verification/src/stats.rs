//! Per-worker and merged statistics: trial count, sum of outcomes, sum of
//! squared outcomes, and an optional histogram, folded exactly, with every
//! overflow reported rather than wrapped.

use vstd::prelude::*;
use crate::hist::Histogram;
use crate::hist::hist_add;
use crate::hist::hist_bump;
use crate::hist::hist_cnt;
use crate::hist::lemma_hist_add_commutative;
use crate::hist::lemma_hist_add_associative;
use crate::hist::lemma_hist_add_empty;

verus! {

/// A fault while accumulating or deriving statistics.
#[derive(Clone, Copy, PartialEq, Eq, Structural, Debug)]
pub enum StatError {
    /// An accumulator would exceed what its integer type can hold.
    Overflow,
    /// Too few trials for the requested statistic: the mean needs at least
    /// one, the standard deviation at least two.
    InsufficientSamples,
}

/// One worker's accumulator: trials processed, sum of outcomes, sum of
/// squared outcomes, and, when the histogram output was requested, the
/// occurrence count of each outcome value.
pub struct ThreadResult {
    pub trials: u64,
    pub sum: u64,
    pub sum_of_squares: u64,
    pub counts: Option<Histogram>,
}

/// Folding `outcome` into `t` stays within `u64` everywhere.
pub open spec fn record_fits(t: ThreadResult, outcome: u64) -> bool {
    &&& t.trials + 1 <= u64::MAX
    &&& t.sum + outcome <= u64::MAX
    &&& outcome * outcome <= u64::MAX
    &&& t.sum_of_squares + outcome * outcome <= u64::MAX
    &&& (t.counts is Some ==> hist_cnt(t.hist(), outcome) + 1 <= u64::MAX)
}

impl ThreadResult {
    /// The record's histogram invariant, trivial when none was requested.
    pub open spec fn wf(self) -> bool {
        match self.counts {
            Some(h) => h.wf(),
            None => true,
        }
    }

    /// The record's histogram as a map, empty when none was requested.
    pub open spec fn hist(self) -> Map<u64, int> {
        match self.counts {
            Some(h) => h.as_map(),
            None => Map::<u64, int>::empty(),
        }
    }

    /// The total mass of the record's histogram: one count per folded
    /// outcome, zero when none was requested.
    pub open spec fn hist_mass(self) -> int {
        match self.counts {
            Some(h) => h.mass(),
            None => 0,
        }
    }

    /// Every bucket of a well-formed record's histogram is a `u64` count.
    pub proof fn lemma_hist_bounded(self)
        requires
            self.wf(),
        ensures
            forall|v: u64| 0 <= #[trigger] hist_cnt(self.hist(), v) <= u64::MAX,
    {
        match self.counts {
            Some(h) => h.lemma_bounded(),
            None => {},
        }
    }

    /// An empty accumulator, with a histogram exactly when one is requested.
    pub fn new(with_counts: bool) -> (r: ThreadResult)
        ensures
            r.wf(),
            r.trials == 0,
            r.sum == 0,
            r.sum_of_squares == 0,
            r.counts is Some <==> with_counts,
            r.hist() == Map::<u64, int>::empty(),
            r.hist_mass() == 0,
    {
        let counts = if with_counts {
            Some(Histogram::new())
        } else {
            None
        };
        ThreadResult { trials: 0, sum: 0, sum_of_squares: 0, counts }
    }

    /// Folds one walk outcome in: one more trial, the outcome added to the
    /// sum, its square to the sum of squares, and its bucket bumped when a
    /// histogram is kept. Succeeds exactly when every accumulator still fits
    /// a `u64`; otherwise reports overflow and leaves the record unchanged.
    pub fn record(&mut self, outcome: u64) -> (r: Result<(), StatError>)
        requires
            old(self).wf(),
        ensures
            final(self).wf(),
            record_fits(*old(self), outcome) ==> ({
                &&& r == Ok::<(), StatError>(())
                &&& final(self).trials == old(self).trials + 1
                &&& final(self).sum == old(self).sum + outcome
                &&& final(self).sum_of_squares == old(self).sum_of_squares + outcome * outcome
                &&& (final(self).counts is Some <==> old(self).counts is Some)
                &&& final(self).hist() == (if old(self).counts is Some {
                    hist_bump(old(self).hist(), outcome, 1)
                } else {
                    Map::<u64, int>::empty()
                })
                &&& (old(self).counts is Some ==> final(self).hist_mass() == old(self).hist_mass()
                    + 1)
            }),
            !record_fits(*old(self), outcome) ==> r == Err::<(), StatError>(StatError::Overflow)
                && *final(self) == *old(self),
    {
        if self.trials == u64::MAX {
            return Err(StatError::Overflow);
        }
        if outcome > u64::MAX - self.sum {
            return Err(StatError::Overflow);
        }
        if outcome > u32::MAX as u64 {
            proof {
                assert(outcome * outcome > u64::MAX) by (nonlinear_arith)
                    requires
                        outcome > 0xffff_ffffu64,
                ;
            }
            return Err(StatError::Overflow);
        }
        proof {
            assert(outcome * outcome <= u64::MAX) by (nonlinear_arith)
                requires
                    outcome <= 0xffff_ffffu64,
            ;
        }
        let sq: u64 = outcome * outcome;
        if sq > u64::MAX - self.sum_of_squares {
            return Err(StatError::Overflow);
        }
        match &mut self.counts {
            Some(h) => {
                proof {
                    h.lemma_bounded();
                }
                let res = h.increment(outcome);
                match res {
                    Ok(()) => {},
                    Err(e) => {
                        proof {
                            assert(*self == *old(self));
                        }
                        return Err(e);
                    },
                }
            },
            None => {},
        }
        self.trials = self.trials + 1;
        self.sum = self.sum + outcome;
        self.sum_of_squares = self.sum_of_squares + sq;
        Ok(())
    }
}

/// Merging two partial records is commutative: the totals of trials, sum and
/// sum of squares, and the bucket-wise histogram sum, do not depend on the
/// order of the two records.
pub proof fn lemma_merge_commutative(a: ThreadResult, b: ThreadResult)
    ensures
        a.trials + b.trials == b.trials + a.trials,
        a.sum + b.sum == b.sum + a.sum,
        a.sum_of_squares + b.sum_of_squares == b.sum_of_squares + a.sum_of_squares,
        hist_add(a.hist(), b.hist()) == hist_add(b.hist(), a.hist()),
{
    lemma_hist_add_commutative(a.hist(), b.hist());
}

/// Merging partial records is associative: grouping does not change the
/// totals or the histogram, so any merge order yields the same aggregate.
pub proof fn lemma_merge_associative(a: ThreadResult, b: ThreadResult, c: ThreadResult)
    ensures
        (a.trials + b.trials) + c.trials == a.trials + (b.trials + c.trials),
        (a.sum + b.sum) + c.sum == a.sum + (b.sum + c.sum),
        (a.sum_of_squares + b.sum_of_squares) + c.sum_of_squares == a.sum_of_squares + (
        b.sum_of_squares + c.sum_of_squares),
        hist_add(hist_add(a.hist(), b.hist()), c.hist()) == hist_add(
            a.hist(),
            hist_add(b.hist(), c.hist()),
        ),
{
    lemma_hist_add_associative(a.hist(), b.hist(), c.hist());
}

/// Total trials of a collection of partial records.
pub open spec fn total_trials(s: Seq<ThreadResult>) -> int
    decreases s.len(),
{
    if s.len() == 0 {
        0
    } else {
        total_trials(s.drop_last()) + s.last().trials
    }
}

/// Total outcome sum of a collection of partial records.
pub open spec fn total_sum(s: Seq<ThreadResult>) -> int
    decreases s.len(),
{
    if s.len() == 0 {
        0
    } else {
        total_sum(s.drop_last()) + s.last().sum
    }
}

/// Total sum of squared outcomes of a collection of partial records.
pub open spec fn total_squares(s: Seq<ThreadResult>) -> int
    decreases s.len(),
{
    if s.len() == 0 {
        0
    } else {
        total_squares(s.drop_last()) + s.last().sum_of_squares
    }
}

/// Bucket-wise total histogram of a collection of partial records.
pub open spec fn total_hist(s: Seq<ThreadResult>) -> Map<u64, int>
    decreases s.len(),
{
    if s.len() == 0 {
        Map::<u64, int>::empty()
    } else {
        hist_add(total_hist(s.drop_last()), s.last().hist())
    }
}

/// Removing one record takes exactly its contribution out of every total.
proof fn lemma_total_remove(s: Seq<ThreadResult>, j: int)
    requires
        0 <= j < s.len(),
    ensures
        total_trials(s) == total_trials(s.remove(j)) + s[j].trials,
        total_sum(s) == total_sum(s.remove(j)) + s[j].sum,
        total_squares(s) == total_squares(s.remove(j)) + s[j].sum_of_squares,
        total_hist(s) == hist_add(total_hist(s.remove(j)), s[j].hist()),
    decreases s.len(),
{
    if j == s.len() - 1 {
        assert(s.remove(j) =~= s.drop_last());
    } else {
        assert(s.remove(j).drop_last() =~= s.drop_last().remove(j));
        assert(s.remove(j).last() == s.last());
        lemma_total_remove(s.drop_last(), j);
        assert(total_hist(s) =~= hist_add(total_hist(s.remove(j)), s[j].hist()));
    }
}

/// Merging the partial records in any order yields the same aggregate: two
/// collections holding the same records give identical total trials, total
/// sum, total sum of squares and histogram.
pub proof fn lemma_totals_permutation(s1: Seq<ThreadResult>, s2: Seq<ThreadResult>)
    requires
        s1.to_multiset() == s2.to_multiset(),
    ensures
        total_trials(s1) == total_trials(s2),
        total_sum(s1) == total_sum(s2),
        total_squares(s1) == total_squares(s2),
        total_hist(s1) == total_hist(s2),
    decreases s1.len(),
{
    broadcast use vstd::seq_lib::group_to_multiset_ensures;

    if s1.len() == 0 {
        assert(s1.to_multiset().len() == s1.len());
        assert(s2.to_multiset().len() == s2.len());
        assert(s2.len() == 0);
    } else {
        let x = s1.last();
        assert(s1.contains(x));
        assert(s2.to_multiset().count(x) > 0);
        assert(s2.contains(x));
        let j = choose|j: int| 0 <= j < s2.len() && s2[j] == x;
        assert(s1.remove(s1.len() - 1) =~= s1.drop_last());
        assert(s1.drop_last().to_multiset() == s1.to_multiset().remove(x));
        assert(s2.remove(j).to_multiset() == s2.to_multiset().remove(x));
        lemma_totals_permutation(s1.drop_last(), s2.remove(j));
        lemma_total_remove(s2, j);
    }
}

/// Every total of the collection fits a `u64`.
pub open spec fn totals_fit(s: Seq<ThreadResult>) -> bool {
    &&& total_trials(s) <= u64::MAX
    &&& total_sum(s) <= u64::MAX
    &&& total_squares(s) <= u64::MAX
    &&& forall|v: u64| #[trigger] hist_cnt(total_hist(s), v) <= u64::MAX
}

/// The totals of a prefix never exceed the totals of the whole collection:
/// every record contributes non-negative amounts everywhere.
pub proof fn lemma_totals_monotonic(s: Seq<ThreadResult>, i: int)
    requires
        0 <= i <= s.len(),
        forall|x: int| 0 <= x < s.len() ==> (#[trigger] s[x]).wf(),
    ensures
        total_trials(s.take(i)) <= total_trials(s),
        total_sum(s.take(i)) <= total_sum(s),
        total_squares(s.take(i)) <= total_squares(s),
        forall|v: u64| #[trigger] hist_cnt(total_hist(s.take(i)), v) <= hist_cnt(total_hist(s), v),
    decreases s.len() - i,
{
    if i == s.len() {
        assert(s.take(i) =~= s);
    } else {
        lemma_totals_monotonic(s, i + 1);
        assert(s.take(i + 1).drop_last() =~= s.take(i));
        assert(s.take(i + 1).last() == s[i]);
        s[i].lemma_hist_bounded();
        assert forall|v: u64| #[trigger] hist_cnt(total_hist(s.take(i)), v) <= hist_cnt(
            total_hist(s),
            v,
        ) by {
            assert(hist_cnt(total_hist(s.take(i + 1)), v) == hist_cnt(total_hist(s.take(i)), v)
                + hist_cnt(s[i].hist(), v));
        }
    }
}

/// The merged result: totals of every partial record and the bucket-wise sum
/// of their histograms, kept whether or not any worker recorded one.
pub struct AggregateStats {
    pub trials: u64,
    pub sum: u64,
    pub sum_of_squares: u64,
    pub counts: Histogram,
}

/// Absorbing `r` into `a` stays within `u64` everywhere.
pub open spec fn absorb_fits(a: AggregateStats, r: ThreadResult) -> bool {
    &&& a.trials + r.trials <= u64::MAX
    &&& a.sum + r.sum <= u64::MAX
    &&& a.sum_of_squares + r.sum_of_squares <= u64::MAX
    &&& forall|v: u64| #[trigger] hist_cnt(a.counts.as_map(), v) + hist_cnt(r.hist(), v)
        <= u64::MAX
}

/// The numerator of the sample variance, from the raw moments:
/// trials times the sum of squares, minus the square of the sum, clamped to
/// zero so the variance can never come out negative.
pub open spec fn variance_num(a: AggregateStats) -> int {
    let raw = a.trials * a.sum_of_squares - a.sum * a.sum;
    if raw < 0 {
        0
    } else {
        raw
    }
}

/// The denominator of the sample variance: trials times trials minus one,
/// the Bessel-corrected divisor scaled by the trial count.
pub open spec fn variance_den(a: AggregateStats) -> int {
    a.trials * (a.trials - 1)
}

impl AggregateStats {
    /// The merged histogram's invariant.
    pub open spec fn wf(self) -> bool {
        self.counts.wf()
    }

    /// The empty aggregate, the neutral element of absorption.
    pub fn new() -> (r: AggregateStats)
        ensures
            r.wf(),
            r.trials == 0,
            r.sum == 0,
            r.sum_of_squares == 0,
            r.counts.as_map() == Map::<u64, int>::empty(),
            r.counts.mass() == 0,
    {
        AggregateStats { trials: 0, sum: 0, sum_of_squares: 0, counts: Histogram::new() }
    }

    /// Adds one partial record in: trials, sum and sum of squares add up,
    /// and the record's histogram, if any, is added bucket-wise. Succeeds
    /// exactly when every total still fits a `u64`; otherwise reports
    /// overflow and leaves the aggregate unchanged.
    pub fn absorb(&mut self, r: &ThreadResult) -> (res: Result<(), StatError>)
        requires
            old(self).wf(),
            r.wf(),
        ensures
            final(self).wf(),
            absorb_fits(*old(self), *r) ==> ({
                &&& res == Ok::<(), StatError>(())
                &&& final(self).trials == old(self).trials + r.trials
                &&& final(self).sum == old(self).sum + r.sum
                &&& final(self).sum_of_squares == old(self).sum_of_squares + r.sum_of_squares
                &&& final(self).counts.as_map() == hist_add(old(self).counts.as_map(), r.hist())
                &&& final(self).counts.mass() == old(self).counts.mass() + r.hist_mass()
            }),
            !absorb_fits(*old(self), *r) ==> res == Err::<(), StatError>(StatError::Overflow)
                && *final(self) == *old(self),
    {
        if self.trials > u64::MAX - r.trials {
            return Err(StatError::Overflow);
        }
        if self.sum > u64::MAX - r.sum {
            return Err(StatError::Overflow);
        }
        if self.sum_of_squares > u64::MAX - r.sum_of_squares {
            return Err(StatError::Overflow);
        }
        match &r.counts {
            Some(h) => {
                let merged = self.counts.merge(h);
                match merged {
                    Ok(()) => {},
                    Err(e) => {
                        return Err(e);
                    },
                }
            },
            None => {
                proof {
                    lemma_hist_add_empty(self.counts.as_map());
                    self.counts.lemma_bounded();
                }
            },
        }
        self.trials = self.trials + r.trials;
        self.sum = self.sum + r.sum;
        self.sum_of_squares = self.sum_of_squares + r.sum_of_squares;
        Ok(())
    }

    /// The mean as an exact ratio, sum over trials. At least one trial is
    /// needed; a zero-trial aggregate has no mean and reports the
    /// insufficient-samples condition instead.
    pub fn mean_ratio(&self) -> (r: Result<(u64, u64), StatError>)
        ensures
            self.trials >= 1 ==> r == Ok::<(u64, u64), StatError>((self.sum, self.trials)),
            self.trials == 0 ==> r == Err::<(u64, u64), StatError>(StatError::InsufficientSamples),
    {
        if self.trials == 0 {
            Err(StatError::InsufficientSamples)
        } else {
            Ok((self.sum, self.trials))
        }
    }

    /// The sample variance as an exact ratio of raw moments, numerator over
    /// denominator, with the numerator clamped at zero. At least two trials
    /// are needed; otherwise the insufficient-samples condition is reported.
    pub fn variance_ratio(&self) -> (r: Result<(u128, u128), StatError>)
        ensures
            self.trials >= 2 ==> (r matches Ok(p) && p.0 == variance_num(*self) && p.1
                == variance_den(*self)),
            self.trials < 2 ==> r == Err::<(u128, u128), StatError>(
                StatError::InsufficientSamples,
            ),
    {
        if self.trials < 2 {
            return Err(StatError::InsufficientSamples);
        }
        proof {
            assert((self.trials as int) * (self.sum_of_squares as int) <= u128::MAX
                && (self.sum as int) * (self.sum as int) <= u128::MAX && (self.trials as int) * (
            self.trials - 1) <= u128::MAX) by (nonlinear_arith)
                requires
                    self.trials <= u64::MAX,
                    self.sum <= u64::MAX,
                    self.sum_of_squares <= u64::MAX,
            ;
        }
        let n: u128 = self.trials as u128;
        let nss: u128 = n * (self.sum_of_squares as u128);
        let ss: u128 = (self.sum as u128) * (self.sum as u128);
        let num: u128 = if nss >= ss {
            nss - ss
        } else {
            0
        };
        let den: u128 = n * ((self.trials - 1) as u128);
        Ok((num, den))
    }
}

/// Merges every partial record into one aggregate: the totals of trials, sum
/// and sum of squares, and the bucket-wise histogram sum. Succeeds exactly
/// when every total fits a `u64`; otherwise reports overflow.
#[verifier::loop_isolation(false)]
pub fn aggregate(results: &Vec<ThreadResult>) -> (r: Result<AggregateStats, StatError>)
    requires
        forall|x: int| 0 <= x < results@.len() ==> (#[trigger] results@[x]).wf(),
    ensures
        totals_fit(results@) ==> (r matches Ok(a) && a.wf() && a.trials == total_trials(results@)
            && a.sum == total_sum(results@) && a.sum_of_squares == total_squares(results@)
            && a.counts.as_map() == total_hist(results@)),
        !totals_fit(results@) ==> r == Err::<AggregateStats, StatError>(StatError::Overflow),
{
    let n = results.len();
    let mut acc = AggregateStats::new();
    let mut i: usize = 0;
    while i < n
        invariant
            i <= n,
            acc.wf(),
            acc.trials == total_trials(results@.take(i as int)),
            acc.sum == total_sum(results@.take(i as int)),
            acc.sum_of_squares == total_squares(results@.take(i as int)),
            acc.counts.as_map() == total_hist(results@.take(i as int)),
        decreases n - i,
    {
        proof {
            assert(results@.take(i as int + 1).drop_last() =~= results@.take(i as int));
            assert(results@.take(i as int + 1).last() == results@[i as int]);
        }
        let res = acc.absorb(&results[i]);
        match res {
            Ok(()) => {},
            Err(e) => {
                proof {
                    lemma_totals_monotonic(results@, i as int + 1);
                    if !(forall|v: u64|
                        #[trigger] hist_cnt(total_hist(results@.take(i as int)), v) + hist_cnt(
                            results@[i as int].hist(),
                            v,
                        ) <= u64::MAX) {
                        let v = choose|v: u64|
                            !(#[trigger] hist_cnt(total_hist(results@.take(i as int)), v)
                                + hist_cnt(results@[i as int].hist(), v) <= u64::MAX);
                        assert(hist_cnt(total_hist(results@.take(i as int + 1)), v) > u64::MAX);
                        assert(!totals_fit(results@));
                    }
                    assert(!totals_fit(results@));
                }
                return Err(e);
            },
        }
        i += 1;
    }
    proof {
        assert(results@.take(n as int) =~= results@);
        acc.counts.lemma_bounded();
    }
    Ok(acc)
}

} // verus!
