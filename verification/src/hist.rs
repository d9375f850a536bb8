//! The histogram of walk outcomes: occurrence counts keyed by outcome value,
//! viewed in contracts as a map from value to count. Merging two histograms
//! adds their buckets; a dense report lists every value of the observed range.

use vstd::prelude::*;
use vstd::pervasive::VecAdditionalExecFns;
use crate::stats::StatError;

verus! {

/// The count a histogram map assigns to `v`: its bucket, or zero when absent.
pub open spec fn hist_cnt(m: Map<u64, int>, v: u64) -> int {
    if m.dom().contains(v) {
        m[v]
    } else {
        0
    }
}

/// Bucket-wise sum of two histogram maps: a bucket absent on one side
/// contributes zero.
pub open spec fn hist_add(a: Map<u64, int>, b: Map<u64, int>) -> Map<u64, int> {
    Map::new(
        |v: u64| a.dom().contains(v) || b.dom().contains(v),
        |v: u64| hist_cnt(a, v) + hist_cnt(b, v),
    )
}

/// `m` with `c` added to the bucket of `v`.
pub open spec fn hist_bump(m: Map<u64, int>, v: u64, c: int) -> Map<u64, int> {
    m.insert(v, hist_cnt(m, v) + c)
}

/// Every bucket of `m` holds a count that a `u64` can hold.
pub open spec fn hist_bounded(m: Map<u64, int>) -> bool {
    forall|v: u64| m.dom().contains(v) ==> 0 <= #[trigger] m[v] <= u64::MAX
}

/// Bucket-wise addition does not depend on the order of its arguments.
pub proof fn lemma_hist_add_commutative(a: Map<u64, int>, b: Map<u64, int>)
    ensures
        hist_add(a, b) == hist_add(b, a),
{
    assert(hist_add(a, b) =~= hist_add(b, a));
}

/// Bucket-wise addition does not depend on grouping.
pub proof fn lemma_hist_add_associative(a: Map<u64, int>, b: Map<u64, int>, c: Map<u64, int>)
    ensures
        hist_add(hist_add(a, b), c) == hist_add(a, hist_add(b, c)),
{
    assert(hist_add(hist_add(a, b), c) =~= hist_add(a, hist_add(b, c)));
}

/// An empty histogram is the neutral element of bucket-wise addition.
pub proof fn lemma_hist_add_empty(a: Map<u64, int>)
    ensures
        hist_add(a, Map::<u64, int>::empty()) == a,
{
    assert(hist_add(a, Map::<u64, int>::empty()) =~= a);
}

spec fn entries_map(s: Seq<(u64, u64)>) -> Map<u64, int>
    decreases s.len(),
{
    if s.len() == 0 {
        Map::<u64, int>::empty()
    } else {
        entries_map(s.drop_last()).insert(s.last().0, s.last().1 as int)
    }
}

spec fn keys_distinct(s: Seq<(u64, u64)>) -> bool {
    forall|i: int, j: int| 0 <= i < j < s.len() ==> (#[trigger] s[i]).0 != (#[trigger] s[j]).0
}

spec fn entries_mass(s: Seq<(u64, u64)>) -> int
    decreases s.len(),
{
    if s.len() == 0 {
        0
    } else {
        entries_mass(s.drop_last()) + s.last().1
    }
}

proof fn lemma_entries_mass_update(s: Seq<(u64, u64)>, i: int, c: u64)
    requires
        0 <= i < s.len(),
    ensures
        entries_mass(s.update(i, (s[i].0, c))) == entries_mass(s) - s[i].1 + c,
    decreases s.len(),
{
    let t = s.update(i, (s[i].0, c));
    if i == s.len() - 1 {
        assert(t.drop_last() =~= s.drop_last());
    } else {
        assert(t.drop_last() =~= s.drop_last().update(i, (s.drop_last()[i].0, c)));
        assert(t.last() == s.last());
        lemma_entries_mass_update(s.drop_last(), i, c);
    }
}

proof fn lemma_entries_map_dom(s: Seq<(u64, u64)>, v: u64)
    ensures
        entries_map(s).dom().contains(v) <==> exists|i: int|
            0 <= i < s.len() && (#[trigger] s[i]).0 == v,
    decreases s.len(),
{
    if s.len() > 0 {
        lemma_entries_map_dom(s.drop_last(), v);
        if s.last().0 == v {
            assert(s[s.len() - 1].0 == v);
        }
        if entries_map(s.drop_last()).dom().contains(v) {
            let i = choose|i: int| 0 <= i < s.drop_last().len() && (#[trigger] s.drop_last()[i]).0 == v;
            assert(s[i].0 == v);
        }
        if exists|i: int| 0 <= i < s.len() && (#[trigger] s[i]).0 == v {
            let i = choose|i: int| 0 <= i < s.len() && (#[trigger] s[i]).0 == v;
            if i < s.len() - 1 {
                assert(s.drop_last()[i].0 == v);
            }
        }
    }
}

proof fn lemma_entries_map_at(s: Seq<(u64, u64)>, i: int)
    requires
        keys_distinct(s),
        0 <= i < s.len(),
    ensures
        entries_map(s).dom().contains(s[i].0),
        entries_map(s)[s[i].0] == s[i].1 as int,
    decreases s.len(),
{
    if i < s.len() - 1 {
        assert(s.drop_last()[i] == s[i]);
        lemma_entries_map_at(s.drop_last(), i);
        assert(s[i].0 != s.last().0);
    }
}

proof fn lemma_entries_map_bounded(s: Seq<(u64, u64)>)
    ensures
        hist_bounded(entries_map(s)),
    decreases s.len(),
{
    if s.len() > 0 {
        lemma_entries_map_bounded(s.drop_last());
    }
}

/// A histogram: occurrence counts of outcome values, no key repeated.
pub struct Histogram {
    entries: Vec<(u64, u64)>,
}

impl Histogram {
    /// The histogram as a map from outcome value to its occurrence count.
    pub closed spec fn as_map(self) -> Map<u64, int> {
        entries_map(self.entries@)
    }

    /// The internal invariant: no outcome value appears in two entries.
    pub closed spec fn wf(self) -> bool {
        keys_distinct(self.entries@)
    }

    /// The histogram's total mass: the occurrence counts of all buckets
    /// added up, one per recorded outcome.
    pub closed spec fn mass(self) -> int {
        entries_mass(self.entries@)
    }

    /// Every bucket of a well-formed histogram fits a `u64`.
    pub proof fn lemma_bounded(self)
        ensures
            hist_bounded(self.as_map()),
    {
        lemma_entries_map_bounded(self.entries@);
    }

    /// A histogram with every bucket empty.
    pub fn new() -> (h: Histogram)
        ensures
            h.wf(),
            h.as_map() == Map::<u64, int>::empty(),
            h.mass() == 0,
    {
        let entries: Vec<(u64, u64)> = Vec::new();
        Histogram { entries }
    }

    /// The occurrence count recorded for `v`, zero when none is.
    pub fn get(&self, v: u64) -> (c: u64)
        requires
            self.wf(),
        ensures
            c as int == hist_cnt(self.as_map(), v),
    {
        let n = self.entries.len();
        let mut i: usize = 0;
        while i < n
            invariant
                i <= n,
                n == self.entries@.len(),
                self.wf(),
                forall|x: int| 0 <= x < i ==> (#[trigger] self.entries@[x]).0 != v,
            decreases n - i,
        {
            if self.entries[i].0 == v {
                proof {
                    lemma_entries_map_at(self.entries@, i as int);
                }
                return self.entries[i].1;
            }
            i += 1;
        }
        proof {
            lemma_entries_map_dom(self.entries@, v);
        }
        0
    }

    /// Adds `c` occurrences of `v`. Succeeds, bumping the bucket of `v` by
    /// `c`, exactly when the new bucket still fits a `u64`; otherwise reports
    /// overflow and leaves the histogram unchanged.
    #[verifier::loop_isolation(false)]
    pub fn add_count(&mut self, v: u64, c: u64) -> (r: Result<(), StatError>)
        requires
            old(self).wf(),
        ensures
            final(self).wf(),
            hist_cnt(old(self).as_map(), v) + c <= u64::MAX ==> r == Ok::<(), StatError>(())
                && final(self).as_map() == hist_bump(old(self).as_map(), v, c as int)
                && final(self).mass() == old(self).mass() + c,
            hist_cnt(old(self).as_map(), v) + c > u64::MAX ==> r == Err::<(), StatError>(
                StatError::Overflow,
            ) && *final(self) == *old(self),
    {
        let n = self.entries.len();
        let mut i: usize = 0;
        while i < n
            invariant
                i <= n,
                n == self.entries@.len(),
                self.wf(),
                *self == *old(self),
                forall|x: int| 0 <= x < i ==> (#[trigger] self.entries@[x]).0 != v,
            decreases n - i,
        {
            if self.entries[i].0 == v {
                let cur = self.entries[i].1;
                proof {
                    lemma_entries_map_at(self.entries@, i as int);
                }
                if c > u64::MAX - cur {
                    return Err(StatError::Overflow);
                }
                let ghost before = self.entries@;
                let bumped: u64 = cur + c;
                self.entries.set(i, (v, bumped));
                proof {
                    lemma_entries_map_update(before, i as int, bumped);
                    lemma_entries_mass_update(before, i as int, bumped);
                    assert(self.as_map() =~= hist_bump(old(self).as_map(), v, c as int));
                }
                return Ok(());
            }
            i += 1;
        }
        proof {
            lemma_entries_map_dom(self.entries@, v);
        }
        let ghost before = self.entries@;
        self.entries.push((v, c));
        proof {
            assert(self.entries@.drop_last() =~= before);
            assert(self.as_map() =~= hist_bump(old(self).as_map(), v, c as int));
        }
        Ok(())
    }

    /// Records one more occurrence of the outcome `v`.
    pub fn increment(&mut self, v: u64) -> (r: Result<(), StatError>)
        requires
            old(self).wf(),
        ensures
            final(self).wf(),
            hist_cnt(old(self).as_map(), v) < u64::MAX ==> r == Ok::<(), StatError>(())
                && final(self).as_map() == hist_bump(old(self).as_map(), v, 1)
                && final(self).mass() == old(self).mass() + 1,
            hist_cnt(old(self).as_map(), v) == u64::MAX ==> r == Err::<(), StatError>(
                StatError::Overflow,
            ) && *final(self) == *old(self),
    {
        self.add_count(v, 1)
    }

    /// Adds every bucket of `other` into this histogram. Succeeds, making
    /// this histogram the bucket-wise sum, exactly when every summed bucket
    /// fits a `u64`; otherwise reports overflow and leaves it unchanged.
    #[verifier::loop_isolation(false)]
    pub fn merge(&mut self, other: &Histogram) -> (r: Result<(), StatError>)
        requires
            old(self).wf(),
            other.wf(),
        ensures
            final(self).wf(),
            (forall|v: u64|
                hist_cnt(old(self).as_map(), v) + hist_cnt(other.as_map(), v) <= u64::MAX)
                ==> r == Ok::<(), StatError>(()) && final(self).as_map() == hist_add(
                old(self).as_map(),
                other.as_map(),
            ) && final(self).mass() == old(self).mass() + other.mass(),
            (exists|v: u64|
                hist_cnt(old(self).as_map(), v) + hist_cnt(other.as_map(), v) > u64::MAX)
                ==> r == Err::<(), StatError>(StatError::Overflow) && *final(self) == *old(self),
    {
        let n = other.entries.len();
        let mut i: usize = 0;
        // first pass: every summed bucket must fit, so that the merge below
        // cannot fail half-way through
        while i < n
            invariant
                i <= n,
                n == other.entries@.len(),
                self.wf(),
                other.wf(),
                *self == *old(self),
                forall|x: int| 0 <= x < i ==> hist_cnt(self.as_map(), (#[trigger] other.entries@[x]).0)
                    + other.entries@[x].1 <= u64::MAX,
            decreases n - i,
        {
            let (v, c) = other.entries[i];
            let cur = self.get(v);
            proof {
                lemma_entries_map_at(other.entries@, i as int);
            }
            if c > u64::MAX - cur {
                proof {
                    assert(hist_cnt(self.as_map(), v) + hist_cnt(other.as_map(), v) > u64::MAX);
                }
                return Err(StatError::Overflow);
            }
            i += 1;
        }
        proof {
            self.lemma_bounded();
            other.lemma_bounded();
            lemma_hist_fits(self.as_map(), other);
        }
        let mut i: usize = 0;
        while i < n
            invariant
                i <= n,
                n == other.entries@.len(),
                self.wf(),
                other.wf(),
                self.as_map() == hist_add(old(self).as_map(), entries_map(other.entries@.take(i as int))),
                self.mass() == old(self).mass() + entries_mass(other.entries@.take(i as int)),
                forall|v: u64|
                    hist_cnt(old(self).as_map(), v) + hist_cnt(other.as_map(), v) <= u64::MAX,
            decreases n - i,
        {
            let (v, c) = other.entries[i];
            proof {
                lemma_entries_map_at(other.entries@, i as int);
                lemma_hist_prefix_cnt(other.entries@, i as int);
                lemma_entries_map_bounded(other.entries@.take(i as int));
            }
            let res = self.add_count(v, c);
            proof {
                assert(other.entries@.take(i as int + 1).drop_last() =~= other.entries@.take(
                    i as int,
                ));
                assert(self.as_map() =~= hist_add(
                    old(self).as_map(),
                    entries_map(other.entries@.take(i as int + 1)),
                ));
            }
            match res {
                Ok(()) => {},
                Err(_) => {
                    proof {
                        assert(false);
                    }
                },
            }
            i += 1;
        }
        proof {
            assert(other.entries@.take(n as int) =~= other.entries@);
        }
        Ok(())
    }

    /// The least outcome value with a bucket, if any bucket exists.
    pub fn min_key(&self) -> (r: Option<u64>)
        requires
            self.wf(),
        ensures
            match r {
                Some(m) => self.as_map().dom().contains(m) && forall|v: u64|
                    self.as_map().dom().contains(v) ==> m <= v,
                None => self.as_map().dom() =~= Set::<u64>::empty(),
            },
    {
        let n = self.entries.len();
        if n == 0 {
            proof {
                lemma_entries_map_empty_dom(self.entries@);
            }
            return None;
        }
        let mut best = self.entries[0].0;
        proof {
            lemma_entries_map_at(self.entries@, 0);
        }
        let mut i: usize = 1;
        while i < n
            invariant
                1 <= i <= n,
                n == self.entries@.len(),
                self.wf(),
                self.as_map().dom().contains(best),
                forall|x: int| 0 <= x < i ==> best <= (#[trigger] self.entries@[x]).0,
            decreases n - i,
        {
            if self.entries[i].0 < best {
                best = self.entries[i].0;
                proof {
                    lemma_entries_map_at(self.entries@, i as int);
                }
            }
            i += 1;
        }
        proof {
            assert forall|v: u64| self.as_map().dom().contains(v) implies best <= v by {
                lemma_entries_map_dom(self.entries@, v);
                let idx = choose|x: int|
                    0 <= x < self.entries@.len() && (#[trigger] self.entries@[x]).0 == v;
                assert(best <= self.entries@[idx].0);
            }
        }
        Some(best)
    }

    /// The greatest outcome value with a bucket, if any bucket exists.
    pub fn max_key(&self) -> (r: Option<u64>)
        requires
            self.wf(),
        ensures
            match r {
                Some(m) => self.as_map().dom().contains(m) && forall|v: u64|
                    self.as_map().dom().contains(v) ==> v <= m,
                None => self.as_map().dom() =~= Set::<u64>::empty(),
            },
    {
        let n = self.entries.len();
        if n == 0 {
            proof {
                lemma_entries_map_empty_dom(self.entries@);
            }
            return None;
        }
        let mut best = self.entries[0].0;
        proof {
            lemma_entries_map_at(self.entries@, 0);
        }
        let mut i: usize = 1;
        while i < n
            invariant
                1 <= i <= n,
                n == self.entries@.len(),
                self.wf(),
                self.as_map().dom().contains(best),
                forall|x: int| 0 <= x < i ==> (#[trigger] self.entries@[x]).0 <= best,
            decreases n - i,
        {
            if self.entries[i].0 > best {
                best = self.entries[i].0;
                proof {
                    lemma_entries_map_at(self.entries@, i as int);
                }
            }
            i += 1;
        }
        proof {
            assert forall|v: u64| self.as_map().dom().contains(v) implies v <= best by {
                lemma_entries_map_dom(self.entries@, v);
                let idx = choose|x: int|
                    0 <= x < self.entries@.len() && (#[trigger] self.entries@[x]).0 == v;
                assert(self.entries@[idx].0 <= best);
            }
        }
        Some(best)
    }

    /// The dense report: for every value of the observed range `lo..=hi`,
    /// its occurrence count, zero where no trial landed. The span must fit
    /// the address space, a machine limit.
    pub fn dense_counts(&self, lo: u64, hi: u64) -> (r: Vec<u64>)
        requires
            self.wf(),
            lo <= hi,
            hi - lo < usize::MAX,
        ensures
            r@.len() == hi - lo + 1,
            forall|x: int| 0 <= x < r@.len() ==> #[trigger] r@[x] == hist_cnt(
                self.as_map(),
                (lo + x) as u64,
            ),
    {
        let span: usize = ((hi - lo) as usize) + 1;
        let mut out: Vec<u64> = Vec::new();
        let mut x: usize = 0;
        while x < span
            invariant
                x <= span,
                span == hi - lo + 1,
                lo <= hi,
                self.wf(),
                out@.len() == x,
                forall|y: int| 0 <= y < x ==> #[trigger] out@[y] == hist_cnt(
                    self.as_map(),
                    (lo + y) as u64,
                ),
            decreases span - x,
        {
            let v: u64 = lo + (x as u64);
            out.push(self.get(v));
            x += 1;
        }
        out
    }
}

proof fn lemma_entries_map_empty_dom(s: Seq<(u64, u64)>)
    requires
        s.len() == 0,
    ensures
        entries_map(s).dom() =~= Set::<u64>::empty(),
{
}

/// When every bucket of `other`'s histogram added to its bucket in `a` fits,
/// every bucket of the sum fits, since a value absent from `other`'s entries
/// contributes zero.
proof fn lemma_hist_fits(a: Map<u64, int>, other: &Histogram)
    requires
        other.wf(),
        hist_bounded(a),
        forall|x: int| 0 <= x < other.entries@.len() ==> hist_cnt(
            a,
            (#[trigger] other.entries@[x]).0,
        ) + other.entries@[x].1 <= u64::MAX,
    ensures
        forall|v: u64| hist_cnt(a, v) + hist_cnt(other.as_map(), v) <= u64::MAX,
{
    assert forall|v: u64| hist_cnt(a, v) + hist_cnt(other.as_map(), v) <= u64::MAX by {
        lemma_entries_map_dom(other.entries@, v);
        if other.as_map().dom().contains(v) {
            let i = choose|i: int| 0 <= i < other.entries@.len() && (#[trigger] other.entries@[i]).0
                == v;
            lemma_entries_map_at(other.entries@, i);
        }
    }
}

/// A key of entry `i` does not occur among the first `i` entries, so the
/// prefix map gives it count zero.
proof fn lemma_hist_prefix_cnt(s: Seq<(u64, u64)>, i: int)
    requires
        keys_distinct(s),
        0 <= i < s.len(),
    ensures
        hist_cnt(entries_map(s.take(i)), s[i].0) == 0,
{
    lemma_entries_map_dom(s.take(i), s[i].0);
}

proof fn lemma_entries_map_update(s: Seq<(u64, u64)>, i: int, c: u64)
    requires
        keys_distinct(s),
        0 <= i < s.len(),
    ensures
        keys_distinct(s.update(i, (s[i].0, c))),
        entries_map(s.update(i, (s[i].0, c))) =~= entries_map(s).insert(s[i].0, c as int),
    decreases s.len(),
{
    let t = s.update(i, (s[i].0, c));
    if i == s.len() - 1 {
        assert(t.drop_last() =~= s.drop_last());
        assert(t.last() == (s[i].0, c));
    } else {
        assert(t.drop_last() =~= s.drop_last().update(i, (s.drop_last()[i].0, c)));
        lemma_entries_map_update(s.drop_last(), i, c);
        assert(s[i].0 != s.last().0);
        assert(t.last() == s.last());
        assert(entries_map(t) =~= entries_map(s).insert(s[i].0, c as int));
    }
}

} // verus!
