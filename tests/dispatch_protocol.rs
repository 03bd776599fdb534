use runtime_bench::dispatch::{ChunkResult, Dispatch, DispatchFailure, UnitResult};
use runtime_bench::kernel::process_value;
use runtime_bench::partition::chunk_ranges;
use runtime_bench::workload::generate_workload;

fn expected(w: &[u32]) -> Vec<u32> {
    w.iter().map(|&v| process_value(v)).collect()
}

fn by_units(w: &[u32]) -> Vec<u32> {
    let mut d = Dispatch::new(w.to_vec());
    for (i, &v) in w.iter().enumerate().rev() {
        d.commit(UnitResult::compute(i, v)).unwrap();
    }
    d.finish().unwrap()
}

fn by_chunks(w: &[u32], size: usize) -> Vec<u32> {
    let mut d = Dispatch::new(w.to_vec());
    for (lo, hi) in chunk_ranges(w.len(), size) {
        let c = ChunkResult::compute(lo, w[lo..hi].to_vec());
        d.commit_chunk(&c).unwrap();
    }
    d.finish().unwrap()
}

#[test]
fn units_fill_every_slot() {
    for size in [1usize, 2, 7, 100] {
        let w = generate_workload(size);
        assert_eq!(by_units(&w), expected(&w));
    }
}

#[test]
fn chunks_fill_every_slot() {
    for size in [1usize, 3, 10, 257] {
        let w = generate_workload(size);
        for chunk in [1usize, 2, 4, 256] {
            assert_eq!(by_chunks(&w, chunk), expected(&w));
        }
    }
}

#[test]
fn single_unit_dispatch() {
    let w = vec![42u32];
    assert_eq!(by_units(&w), vec![process_value(42)]);
    assert_eq!(by_chunks(&w, 1), vec![process_value(42)]);
    assert_eq!(by_chunks(&w, 256), vec![process_value(42)]);
}

#[test]
fn second_write_is_refused() {
    let w = vec![1u32, 2, 3];
    let mut d = Dispatch::new(w.clone());
    assert_eq!(d.commit(UnitResult::compute(1, 2)), Ok(()));
    assert_eq!(d.commit(UnitResult::compute(1, 2)), Err(DispatchFailure::AlreadyWritten));
    let c = ChunkResult::compute(0, vec![1, 2]);
    assert_eq!(d.commit_chunk(&c), Err(DispatchFailure::AlreadyWritten));
    d.commit(UnitResult::compute(0, 1)).unwrap();
    d.commit(UnitResult::compute(2, 3)).unwrap();
    assert_eq!(d.finish(), Ok(expected(&w)));
}

#[test]
fn wrong_index_or_input_is_refused() {
    let mut d = Dispatch::new(vec![5u32, 6]);
    assert_eq!(d.commit(UnitResult::compute(2, 5)), Err(DispatchFailure::IndexOutOfRange));
    assert_eq!(d.commit(UnitResult::compute(0, 6)), Err(DispatchFailure::InputMismatch));
    let c = ChunkResult::compute(1, vec![6, 7]);
    assert_eq!(d.commit_chunk(&c), Err(DispatchFailure::IndexOutOfRange));
    let c = ChunkResult::compute(0, vec![5, 7]);
    assert_eq!(d.commit_chunk(&c), Err(DispatchFailure::InputMismatch));
    let c = ChunkResult::compute(0, vec![5, 6]);
    assert_eq!(d.commit_chunk(&c), Ok(()));
    assert_eq!(d.finish(), Ok(vec![process_value(5), process_value(6)]));
}

#[test]
fn unfinished_dispatch_fails() {
    let mut d = Dispatch::new(vec![1u32, 2, 3, 4]);
    d.commit(UnitResult::compute(0, 1)).unwrap();
    d.commit(UnitResult::compute(3, 4)).unwrap();
    assert_eq!(d.finish(), Err(DispatchFailure::Incomplete));
}

#[test]
fn empty_dispatch_finishes() {
    let d = Dispatch::new(Vec::new());
    assert_eq!(d.len(), 0);
    assert_eq!(d.finish(), Ok(Vec::new()));
}

#[test]
fn unit_result_carries_kernel_output() {
    let u = UnitResult::compute(3, 9999);
    assert_eq!(u.index(), 3);
    assert_eq!(u.input(), 9999);
    assert_eq!(u.output(), 1999);
    let c = ChunkResult::compute(2, vec![0, 1]);
    assert_eq!(c.start(), 2);
    assert_eq!(c.len(), 2);
    assert_eq!(c.outputs(), &vec![2000, 2001]);
}

#[test]
fn dispatch_reports_inputs() {
    let d = Dispatch::new(vec![8u32, 9]);
    assert_eq!(d.input(1), Some(9));
    assert_eq!(d.input(2), None);
}

#[test]
fn any_commit_order_completes() {
    let w = vec![10u32, 20, 30, 40, 50];
    let mut d = Dispatch::new(w.clone());
    for &i in &[3usize, 0, 4, 1, 2] {
        d.commit(UnitResult::compute(i, w[i])).unwrap();
    }
    assert_eq!(d.finish(), Ok(expected(&w)));
}

#[test]
fn repeated_index_in_order_is_refused() {
    let w = vec![10u32, 20, 30];
    let mut d = Dispatch::new(w.clone());
    let mut outcomes = Vec::new();
    for &i in &[0usize, 2, 0, 1] {
        outcomes.push(d.commit(UnitResult::compute(i, w[i])));
    }
    assert_eq!(outcomes, vec![Ok(()), Ok(()), Err(DispatchFailure::AlreadyWritten), Ok(())]);
    assert_eq!(d.finish(), Ok(expected(&w)));
}
