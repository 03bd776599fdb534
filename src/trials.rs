//! Trial statistics: the timing samples of one backend, their best and mean,
//! and the records that carry them into the rankings. Times are in
//! nanoseconds.
use vstd::prelude::*;
use crate::dispatch::DispatchFailure;

verus! {

/// The smallest sample of `s` (0 for an empty series).
pub open spec fn min_of(s: Seq<u64>) -> int
    decreases s.len(),
{
    if s.len() == 0 {
        0
    } else if s.len() == 1 {
        s[0] as int
    } else if (s.last() as int) < min_of(s.drop_last()) {
        s.last() as int
    } else {
        min_of(s.drop_last())
    }
}

/// The sum of the samples of `s`.
pub open spec fn sum_of(s: Seq<u64>) -> int
    decreases s.len(),
{
    if s.len() == 0 {
        0
    } else {
        sum_of(s.drop_last()) + s.last()
    }
}

/// The arithmetic mean of a non-empty series, rounded down.
pub open spec fn mean_of(s: Seq<u64>) -> int {
    sum_of(s) / (s.len() as int)
}

/// The best sample is one of the samples, and no sample is below it.
pub proof fn lemma_min_is_least(s: Seq<u64>)
    requires
        s.len() > 0,
    ensures
        exists|k: int| 0 <= k < s.len() && s[k] == min_of(s),
        forall|k: int| 0 <= k < s.len() ==> min_of(s) <= #[trigger] s[k],
    decreases s.len(),
{
    if s.len() > 1 {
        lemma_min_is_least(s.drop_last());
        let k = choose|k: int| 0 <= k < s.len() - 1 && s.drop_last()[k] == min_of(s.drop_last());
        if (s.last() as int) < min_of(s.drop_last()) {
            assert(s[s.len() - 1] == min_of(s));
        } else {
            assert(s[k] == min_of(s));
        }
        assert forall|j: int| 0 <= j < s.len() implies min_of(s) <= #[trigger] s[j] by {
            if j < s.len() - 1 {
                assert(s.drop_last()[j] == s[j]);
            }
        }
    } else {
        assert(s[0] == min_of(s));
    }
}

/// The sum lies between `len * min` and `len * u64::MAX`.
proof fn lemma_sum_bounds(s: Seq<u64>)
    requires
        s.len() > 0,
    ensures
        s.len() * min_of(s) <= sum_of(s) <= s.len() * (u64::MAX as int),
    decreases s.len(),
{
    lemma_min_is_least(s);
    if s.len() > 1 {
        let t = s.drop_last();
        lemma_sum_bounds(t);
        lemma_min_is_least(t);
        assert(min_of(s) <= min_of(t));
        assert(s.last() >= min_of(s)) by {
            assert(s[s.len() - 1] == s.last());
        }
        let n = t.len() as int;
        let a = min_of(s);
        let b = min_of(t);
        assert(n * a <= n * b) by (nonlinear_arith)
            requires a <= b, n >= 0;
        assert(s.len() * a == n * a + a) by (nonlinear_arith)
            requires s.len() == n + 1;
        assert(s.len() * (u64::MAX as int) == n * (u64::MAX as int) + u64::MAX) by (nonlinear_arith)
            requires s.len() == n + 1;
    } else {
        assert(sum_of(s) == s[0]) by {
            assert(sum_of(s.drop_last()) == 0);
        }
    }
}

/// Over any non-empty series the best sample is at most the mean.
pub proof fn lemma_best_at_most_mean(s: Seq<u64>)
    requires
        s.len() > 0,
    ensures
        min_of(s) <= mean_of(s),
        mean_of(s) <= u64::MAX,
{
    lemma_sum_bounds(s);
    let n = s.len() as int;
    let m = min_of(s);
    vstd::arithmetic::div_mod::lemma_div_is_ordered(n * m, sum_of(s), n);
    vstd::arithmetic::div_mod::lemma_div_multiples_vanish(m, n);
    vstd::arithmetic::div_mod::lemma_div_is_ordered(sum_of(s), n * (u64::MAX as int), n);
    vstd::arithmetic::div_mod::lemma_div_multiples_vanish(u64::MAX as int, n);
}

/// The timing samples of one backend, in the order they were recorded.
pub struct TrialSeries {
    times: Vec<u64>,
}

impl View for TrialSeries {
    type V = Seq<u64>;

    closed spec fn view(&self) -> Seq<u64> {
        self.times@
    }
}

impl TrialSeries {
    /// A series with no samples.
    pub fn new() -> (r: TrialSeries)
        ensures
            r@ == Seq::<u64>::empty(),
    {
        TrialSeries { times: Vec::new() }
    }

    /// Appends the duration of one timed dispatch.
    pub fn record(&mut self, nanos: u64)
        ensures
            final(self)@ == old(self)@.push(nanos),
    {
        self.times.push(nanos);
    }

    pub fn times(&self) -> (r: &Vec<u64>)
        ensures
            r@ == self@,
    {
        &self.times
    }

    pub fn len(&self) -> (r: usize)
        ensures
            r == self@.len(),
    {
        self.times.len()
    }

    /// The smallest sample; `None` when nothing was recorded.
    pub fn best(&self) -> (r: Option<u64>)
        ensures
            r == if self@.len() == 0 { None } else { Some(min_of(self@) as u64) },
    {
        let n = self.times.len();
        if n == 0 {
            return None;
        }
        let mut best = self.times[0];
        let mut k: usize = 1;
        assert(self.times@.subrange(0, 1).drop_last() =~= Seq::<u64>::empty());
        while k < n
            invariant
                n == self.times@.len(),
                1 <= k <= n,
                best == min_of(self.times@.subrange(0, k as int)),
            decreases n - k,
        {
            assert(self.times@.subrange(0, k + 1).drop_last() =~= self.times@.subrange(0, k as int));
            if self.times[k] < best {
                best = self.times[k];
            }
            k = k + 1;
        }
        assert(self.times@.subrange(0, n as int) =~= self.times@);
        Some(best)
    }

    /// The arithmetic mean of the samples, rounded down; `None` when nothing
    /// was recorded, so an empty series never divides by zero.
    pub fn mean(&self) -> (r: Option<u64>)
        ensures
            r == if self@.len() == 0 { None } else { Some(mean_of(self@) as u64) },
    {
        let n = self.times.len();
        if n == 0 {
            return None;
        }
        let mut sum: u128 = 0;
        let mut k: usize = 0;
        assert(self.times@.subrange(0, 0) =~= Seq::<u64>::empty());
        while k < n
            invariant
                n == self.times@.len(),
                k <= n,
                sum == sum_of(self.times@.subrange(0, k as int)),
            decreases n - k,
        {
            let ghost prefix = self.times@.subrange(0, k + 1);
            assert(prefix.drop_last() =~= self.times@.subrange(0, k as int));
            proof {
                lemma_sum_bounds(prefix);
                assert(prefix.len() * (u64::MAX as int) < 0x1_0000_0000_0000_0000_0000_0000_0000_0000) by (nonlinear_arith)
                    requires prefix.len() <= usize::MAX;
            }
            sum = sum + self.times[k] as u128;
            k = k + 1;
        }
        assert(self.times@.subrange(0, n as int) =~= self.times@);
        proof {
            lemma_best_at_most_mean(self.times@);
        }
        Some((sum / n as u128) as u64)
    }
}

/// Drives the trials of one backend: a fixed number of iterations, each
/// either timed and recorded or failed. A failed dispatch records no sample
/// and ends the backend's run.
pub struct TrialRunner {
    iterations: usize,
    series: TrialSeries,
    failed: bool,
}

impl TrialRunner {
    pub closed spec fn spec_iterations(&self) -> usize {
        self.iterations
    }

    pub closed spec fn spec_series(&self) -> Seq<u64> {
        self.series@
    }

    pub closed spec fn spec_failed(&self) -> bool {
        self.failed
    }

    /// A runner for `iterations` trials, with no sample yet.
    pub fn new(iterations: usize) -> (r: TrialRunner)
        ensures
            r.spec_iterations() == iterations,
            r.spec_series() == Seq::<u64>::empty(),
            !r.spec_failed(),
    {
        TrialRunner { iterations, series: TrialSeries::new(), failed: false }
    }

    /// Another trial is due: fewer samples than iterations, and no failure.
    pub fn wants_trial(&self) -> (r: bool)
        ensures
            r == (!self.spec_failed() && self.spec_series().len() < self.spec_iterations()),
    {
        !self.failed && self.series.len() < self.iterations
    }

    /// Takes the outcome of one dispatch and its duration. A successful one
    /// appends the duration; a failed one records nothing, marks the run as
    /// failed and hands the failure back.
    pub fn record(&mut self, outcome: Result<(), DispatchFailure>, nanos: u64) -> (r: Result<(), DispatchFailure>)
        ensures
            r == outcome,
            final(self).spec_iterations() == old(self).spec_iterations(),
            outcome is Ok ==> final(self).spec_series() == old(self).spec_series().push(nanos)
                && final(self).spec_failed() == old(self).spec_failed(),
            outcome is Err ==> final(self).spec_series() == old(self).spec_series() && final(self).spec_failed(),
    {
        match outcome {
            Ok(()) => {
                self.series.record(nanos);
                outcome
            },
            Err(e) => {
                self.failed = true;
                Err(e)
            },
        }
    }

    /// The recorded samples: `None` after a failure.
    pub fn into_series(self) -> (r: Option<TrialSeries>)
        ensures
            self.spec_failed() <==> r is None,
            r matches Some(s) ==> s@ == self.spec_series(),
    {
        if self.failed {
            None
        } else {
            Some(self.series)
        }
    }

    /// The backend's record: `None` after a failure or when no sample was
    /// recorded (zero iterations).
    pub fn finalize(self, category: Category, library: String) -> (r: Option<BenchmarkResult>)
        ensures
            (self.spec_failed() || self.spec_series().len() == 0) <==> r is None,
            r matches Some(rec) ==> rec.category == category && rec.library@ == library@
                && summarises(rec.best_time, rec.avg_time, rec.all_times@, self.spec_series()),
    {
        if self.failed {
            None
        } else {
            BenchmarkResult::from_series(category, library, self.series)
        }
    }
}

/// The comparison group a backend belongs to.
#[derive(Debug, Clone, Copy, PartialEq, Eq, Structural)]
pub enum Category {
    /// Cooperative task schedulers.
    Asynchronous,
    /// Thread pools and parallel iterators.
    Parallel,
    /// A task scheduler combined with a data-parallel layer.
    Hybrid,
}

/// The statistics of one backend over all its trials, tagged with its
/// category: the record that the rankings compare.
pub struct BenchmarkResult {
    pub category: Category,
    pub library: String,
    pub best_time: u64,
    pub avg_time: u64,
    pub all_times: Vec<u64>,
}

/// `r` summarises `series`: its best sample, its mean and every sample.
pub open spec fn summarises(best_time: u64, avg_time: u64, all_times: Seq<u64>, series: Seq<u64>) -> bool {
    &&& series.len() > 0
    &&& best_time == min_of(series)
    &&& avg_time == mean_of(series)
    &&& all_times == series
}

impl BenchmarkResult {
    /// The record of a backend from its samples; `None` when it has none, so
    /// a backend run for zero iterations is reported as having no samples.
    pub fn from_series(category: Category, library: String, series: TrialSeries) -> (r: Option<BenchmarkResult>)
        ensures
            series@.len() == 0 <==> r is None,
            r matches Some(rec) ==> rec.category == category && rec.library@ == library@
                && summarises(rec.best_time, rec.avg_time, rec.all_times@, series@),
    {
        proof {
            if series@.len() > 0 {
                lemma_min_is_least(series@);
                lemma_best_at_most_mean(series@);
            }
        }
        match (series.best(), series.mean()) {
            (Some(best_time), Some(avg_time)) => {
                let TrialSeries { times } = series;
                Some(BenchmarkResult { category, library, best_time, avg_time, all_times: times })
            },
            _ => None,
        }
    }
}

/// The statistics of one task-scheduler backend over all its trials.
pub struct AsyncBenchmarkResult {
    pub library: String,
    pub best_time: u64,
    pub avg_time: u64,
    pub all_times: Vec<u64>,
}

impl AsyncBenchmarkResult {
    /// The statistics of a backend from its samples; `None` when it has none.
    pub fn from_series(library: String, series: TrialSeries) -> (r: Option<AsyncBenchmarkResult>)
        ensures
            series@.len() == 0 <==> r is None,
            r matches Some(rec) ==> rec.library@ == library@
                && summarises(rec.best_time, rec.avg_time, rec.all_times@, series@),
    {
        proof {
            if series@.len() > 0 {
                lemma_min_is_least(series@);
                lemma_best_at_most_mean(series@);
            }
        }
        match (series.best(), series.mean()) {
            (Some(best_time), Some(avg_time)) => {
                let TrialSeries { times } = series;
                Some(AsyncBenchmarkResult { library, best_time, avg_time, all_times: times })
            },
            _ => None,
        }
    }

    /// The same statistics as a record of category `Asynchronous`.
    pub fn into_record(self) -> (r: BenchmarkResult)
        ensures
            r.category == Category::Asynchronous,
            r.library@ == self.library@,
            r.best_time == self.best_time,
            r.avg_time == self.avg_time,
            r.all_times@ == self.all_times@,
    {
        BenchmarkResult {
            category: Category::Asynchronous,
            library: self.library,
            best_time: self.best_time,
            avg_time: self.avg_time,
            all_times: self.all_times,
        }
    }
}

/// The statistics of one thread or parallel-iterator backend over all its trials.
pub struct ParallelBenchmarkResult {
    pub library: String,
    pub best_time: u64,
    pub avg_time: u64,
    pub all_times: Vec<u64>,
}

impl ParallelBenchmarkResult {
    /// The statistics of a backend from its samples; `None` when it has none.
    pub fn from_series(library: String, series: TrialSeries) -> (r: Option<ParallelBenchmarkResult>)
        ensures
            series@.len() == 0 <==> r is None,
            r matches Some(rec) ==> rec.library@ == library@
                && summarises(rec.best_time, rec.avg_time, rec.all_times@, series@),
    {
        proof {
            if series@.len() > 0 {
                lemma_min_is_least(series@);
                lemma_best_at_most_mean(series@);
            }
        }
        match (series.best(), series.mean()) {
            (Some(best_time), Some(avg_time)) => {
                let TrialSeries { times } = series;
                Some(ParallelBenchmarkResult { library, best_time, avg_time, all_times: times })
            },
            _ => None,
        }
    }

    /// The same statistics as a record of category `Parallel`.
    pub fn into_record(self) -> (r: BenchmarkResult)
        ensures
            r.category == Category::Parallel,
            r.library@ == self.library@,
            r.best_time == self.best_time,
            r.avg_time == self.avg_time,
            r.all_times@ == self.all_times@,
    {
        BenchmarkResult {
            category: Category::Parallel,
            library: self.library,
            best_time: self.best_time,
            avg_time: self.avg_time,
            all_times: self.all_times,
        }
    }
}

/// The statistics of one hybrid backend over all its trials.
pub struct HybridBenchmarkResult {
    pub library: String,
    pub best_time: u64,
    pub avg_time: u64,
    pub all_times: Vec<u64>,
}

impl HybridBenchmarkResult {
    /// The statistics of a backend from its samples; `None` when it has none.
    pub fn from_series(library: String, series: TrialSeries) -> (r: Option<HybridBenchmarkResult>)
        ensures
            series@.len() == 0 <==> r is None,
            r matches Some(rec) ==> rec.library@ == library@
                && summarises(rec.best_time, rec.avg_time, rec.all_times@, series@),
    {
        proof {
            if series@.len() > 0 {
                lemma_min_is_least(series@);
                lemma_best_at_most_mean(series@);
            }
        }
        match (series.best(), series.mean()) {
            (Some(best_time), Some(avg_time)) => {
                let TrialSeries { times } = series;
                Some(HybridBenchmarkResult { library, best_time, avg_time, all_times: times })
            },
            _ => None,
        }
    }

    /// The same statistics as a record of category `Hybrid`.
    pub fn into_record(self) -> (r: BenchmarkResult)
        ensures
            r.category == Category::Hybrid,
            r.library@ == self.library@,
            r.best_time == self.best_time,
            r.avg_time == self.avg_time,
            r.all_times@ == self.all_times@,
    {
        BenchmarkResult {
            category: Category::Hybrid,
            library: self.library,
            best_time: self.best_time,
            avg_time: self.avg_time,
            all_times: self.all_times,
        }
    }
}

} // verus!
