use runtime_bench::dispatch::{Dispatch, DispatchFailure, UnitResult};
use runtime_bench::kernel::process_value;
use runtime_bench::ranking::{percent_slower, rank_by_best, rank_by_mean, rank_in_category, Standing};
use runtime_bench::trials::{
    AsyncBenchmarkResult, BenchmarkResult, Category, HybridBenchmarkResult, ParallelBenchmarkResult, TrialRunner,
    TrialSeries,
};
use runtime_bench::workload::generate_workload;

fn series(times: &[u64]) -> TrialSeries {
    let mut s = TrialSeries::new();
    for &t in times {
        s.record(t);
    }
    s
}

fn record(category: Category, name: &str, best: u64, avg: u64) -> BenchmarkResult {
    BenchmarkResult { category, library: name.to_string(), best_time: best, avg_time: avg, all_times: vec![best, avg] }
}

fn indices(r: &[Standing]) -> Vec<usize> {
    r.iter().map(|s| s.index).collect()
}

fn slowdowns(r: &[Standing]) -> Vec<Option<u128>> {
    r.iter().map(|s| s.slower_hundredths).collect()
}

#[test]
fn best_and_mean_of_series() {
    let s = series(&[300, 100, 200, 401]);
    assert_eq!(s.best(), Some(100));
    assert_eq!(s.mean(), Some(250));
    assert_eq!(s.times(), &vec![300, 100, 200, 401]);
    assert_eq!(s.len(), 4);
}

#[test]
fn mean_rounds_down_and_does_not_overflow() {
    assert_eq!(series(&[1, 2]).mean(), Some(1));
    assert_eq!(series(&[u64::MAX, u64::MAX, u64::MAX]).mean(), Some(u64::MAX));
}

#[test]
fn zero_iterations_give_no_record() {
    let s = TrialSeries::new();
    assert_eq!(s.best(), None);
    assert_eq!(s.mean(), None);
    assert!(BenchmarkResult::from_series(Category::Parallel, "x".to_string(), TrialSeries::new()).is_none());
    assert!(AsyncBenchmarkResult::from_series("x".to_string(), TrialSeries::new()).is_none());
    let runner = TrialRunner::new(0);
    assert!(!runner.wants_trial());
    assert!(runner.finalize(Category::Hybrid, "x".to_string()).is_none());
}

#[test]
fn failed_dispatch_records_nothing() {
    let mut runner = TrialRunner::new(3);
    assert_eq!(runner.record(Ok(()), 50), Ok(()));
    assert_eq!(runner.record(Err(DispatchFailure::Incomplete), 10), Err(DispatchFailure::Incomplete));
    assert!(!runner.wants_trial());
    assert!(runner.finalize(Category::Parallel, "p".to_string()).is_none());
}

#[test]
fn size_four_two_iterations() {
    let mut runner = TrialRunner::new(2);
    let durations = [700u64, 500];
    let mut k = 0;
    while runner.wants_trial() {
        let w = generate_workload(4);
        assert_eq!(w.len(), 4);
        let mut d = Dispatch::new(w.clone());
        for (i, &v) in w.iter().enumerate() {
            d.commit(UnitResult::compute(i, v)).unwrap();
        }
        let out = d.finish().unwrap();
        let want: Vec<u32> = w.iter().map(|&v| process_value(v)).collect();
        assert_eq!(out, want);
        runner.record(Ok(()), durations[k]).unwrap();
        k += 1;
    }
    assert_eq!(k, 2);
    let rec = runner.finalize(Category::Asynchronous, "Tokio".to_string()).unwrap();
    assert_eq!(rec.best_time, 500);
    assert_eq!(rec.avg_time, 600);
    assert_eq!(rec.all_times, vec![700, 500]);
    assert!(rec.best_time <= rec.avg_time);
}

#[test]
fn category_results_become_records() {
    let a = AsyncBenchmarkResult::from_series("smol".to_string(), series(&[5, 9])).unwrap();
    assert_eq!((a.best_time, a.avg_time), (5, 7));
    let r = a.into_record();
    assert_eq!(r.category, Category::Asynchronous);
    assert_eq!(r.library, "smol");
    let p = ParallelBenchmarkResult::from_series("Rayon".to_string(), series(&[4])).unwrap();
    assert_eq!(p.into_record().category, Category::Parallel);
    let h = HybridBenchmarkResult::from_series("Flume".to_string(), series(&[8, 2, 5])).unwrap();
    assert_eq!((h.best_time, h.avg_time, h.all_times.clone()), (2, 5, vec![8, 2, 5]));
    assert_eq!(h.into_record().category, Category::Hybrid);
}

#[test]
fn percent_slower_values() {
    assert_eq!(percent_slower(100, 100), Some(0));
    assert_eq!(percent_slower(150, 100), Some(5000));
    assert_eq!(percent_slower(300, 100), Some(20000));
    assert_eq!(percent_slower(101, 3), Some(326666));
    assert_eq!(percent_slower(5, 0), None);
    assert_eq!(percent_slower(0, 0), Some(0));
    assert_eq!(percent_slower(1, 3), None);
}

#[test]
fn global_ranking_by_best() {
    let rs = vec![
        record(Category::Asynchronous, "a", 300, 310),
        record(Category::Parallel, "b", 100, 400),
        record(Category::Hybrid, "c", 200, 250),
        record(Category::Parallel, "d", 100, 120),
    ];
    let r = rank_by_best(&rs);
    assert_eq!(indices(&r), vec![1, 3, 2, 0]);
    assert_eq!(slowdowns(&r), vec![Some(0), Some(0), Some(10000), Some(20000)]);
    for pair in r.windows(2) {
        assert!(pair[0].time <= pair[1].time);
    }
}

#[test]
fn global_ranking_by_mean() {
    let rs = vec![
        record(Category::Asynchronous, "a", 300, 310),
        record(Category::Parallel, "b", 100, 400),
        record(Category::Hybrid, "c", 200, 200),
    ];
    let r = rank_by_mean(&rs);
    assert_eq!(indices(&r), vec![2, 0, 1]);
    assert_eq!(r[0].time, 200);
    assert_eq!(slowdowns(&r), vec![Some(0), Some(5500), Some(10000)]);
}

#[test]
fn category_ranking_uses_category_leader() {
    let rs = vec![
        record(Category::Asynchronous, "a", 300, 310),
        record(Category::Parallel, "b", 100, 400),
        record(Category::Asynchronous, "c", 600, 650),
        record(Category::Hybrid, "d", 50, 60),
    ];
    let r = rank_in_category(&rs, Category::Asynchronous);
    assert_eq!(indices(&r), vec![0, 2]);
    assert_eq!(slowdowns(&r), vec![Some(0), Some(10000)]);
    let r = rank_in_category(&rs, Category::Parallel);
    assert_eq!(indices(&r), vec![1]);
    assert_eq!(slowdowns(&r), vec![Some(0)]);
}

#[test]
fn empty_category_gives_empty_ranking() {
    let rs = vec![record(Category::Parallel, "b", 100, 400)];
    assert!(rank_in_category(&rs, Category::Hybrid).is_empty());
    assert!(rank_by_best(&Vec::new()).is_empty());
}

#[test]
fn zero_leader_gets_zero_slowdown() {
    let rs = vec![record(Category::Parallel, "b", 0, 0), record(Category::Parallel, "c", 10, 10)];
    let r = rank_by_best(&rs);
    assert_eq!(indices(&r), vec![0, 1]);
    assert_eq!(slowdowns(&r), vec![Some(0), None]);
    let r = rank_by_mean(&rs);
    assert_eq!(slowdowns(&r), vec![Some(0), None]);
}

#[test]
fn category_view_ignores_other_categories() {
    let parallel = [record(Category::Parallel, "r", 120, 130), record(Category::Parallel, "t", 180, 200)];
    let first = vec![
        record(Category::Asynchronous, "a", 10, 20),
        record(Category::Parallel, "r", 120, 130),
        record(Category::Hybrid, "h", 5, 6),
        record(Category::Parallel, "t", 180, 200),
    ];
    let second = vec![
        record(Category::Parallel, "r", 120, 130),
        record(Category::Hybrid, "x", 900, 950),
        record(Category::Parallel, "t", 180, 200),
    ];
    let a = rank_in_category(&first, Category::Parallel);
    let b = rank_in_category(&second, Category::Parallel);
    assert_eq!(a.len(), parallel.len());
    let times_a: Vec<u64> = a.iter().map(|s| s.time).collect();
    let times_b: Vec<u64> = b.iter().map(|s| s.time).collect();
    assert_eq!(times_a, vec![120, 180]);
    assert_eq!(times_a, times_b);
    assert_eq!(slowdowns(&a), vec![Some(0), Some(5000)]);
    assert_eq!(slowdowns(&a), slowdowns(&b));
}

#[test]
fn runner_hands_back_its_series() {
    let mut runner = TrialRunner::new(2);
    runner.record(Ok(()), 9).unwrap();
    runner.record(Ok(()), 3).unwrap();
    assert!(!runner.wants_trial());
    let s = runner.into_series().unwrap();
    assert_eq!(s.times(), &vec![9, 3]);
    let mut failed = TrialRunner::new(1);
    let _ = failed.record(Err(DispatchFailure::InputMismatch), 1);
    assert!(failed.into_series().is_none());
}
