use runtime_bench::kernel::{process_value, KERNEL_MODULUS};
use runtime_bench::partition::{chunk_ranges, chunk_size_for, hybrid_chunks};
use runtime_bench::workload::{generate_workload, UNIT_BOUND};

#[test]
fn kernel_exact_values() {
    assert_eq!(process_value(0), 2000);
    assert_eq!(process_value(1), 2001);
    assert_eq!(process_value(5), 2005);
    assert_eq!(process_value(9999), 1999);
    assert_eq!(process_value(123456789), 8789);
}

#[test]
fn kernel_wraps_on_large_inputs() {
    assert_eq!(process_value(u32::MAX), 4815);
}

#[test]
fn kernel_is_deterministic() {
    for x in [0u32, 7, 9999, 65536, u32::MAX] {
        let first = process_value(x);
        for _ in 0..5 {
            assert_eq!(process_value(x), first);
        }
        assert!(first < KERNEL_MODULUS);
    }
}

#[test]
fn workload_has_requested_size_and_range() {
    for size in [0usize, 1, 4, 1000] {
        let w = generate_workload(size);
        assert_eq!(w.len(), size);
        assert!(w.iter().all(|&v| v < UNIT_BOUND));
    }
}

#[test]
fn workload_values_vary() {
    let w = generate_workload(1000);
    let first = w[0];
    assert!(w.iter().any(|&v| v != first));
}

#[test]
fn chunk_ranges_exact() {
    assert_eq!(chunk_ranges(10, 3), vec![(0, 3), (3, 6), (6, 9), (9, 10)]);
    assert_eq!(chunk_ranges(6, 3), vec![(0, 3), (3, 6)]);
    assert_eq!(chunk_ranges(1, 256), vec![(0, 1)]);
    assert_eq!(chunk_ranges(0, 4), vec![]);
}

#[test]
fn chunk_size_never_zero() {
    assert_eq!(chunk_size_for(10, 4), 2);
    assert_eq!(chunk_size_for(10000, 8), 1250);
    assert_eq!(chunk_size_for(1, 8), 1);
    assert_eq!(chunk_size_for(0, 8), 1);
}

#[test]
fn hybrid_chunks_single_unit() {
    assert_eq!(hybrid_chunks(1), vec![(0, 1)]);
}

#[test]
fn hybrid_chunks_tile_workload() {
    let len = 1003;
    let ranges = hybrid_chunks(len);
    assert!(!ranges.is_empty());
    assert_eq!(ranges[0].0, 0);
    assert_eq!(ranges[ranges.len() - 1].1, len);
    for pair in ranges.windows(2) {
        assert_eq!(pair[0].1, pair[1].0);
    }
    for r in &ranges {
        assert!(r.0 < r.1);
    }
}

#[test]
fn worker_count_is_positive() {
    assert!(runtime_bench::partition::worker_count() >= 1);
    assert_eq!(runtime_bench::partition::WORKGROUP_SIZE, 256);
}
