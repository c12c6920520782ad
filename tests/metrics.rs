use std::time::Duration;

use hybridkv::metrics::{bucket_index, LatencyHistogram, Metrics};

#[test]
fn bucket_selection() {
    let bounds = [1u64, 2, 5, 10];
    assert_eq!(bucket_index(&bounds, 0), 0);
    assert_eq!(bucket_index(&bounds, 1), 0);
    assert_eq!(bucket_index(&bounds, 3), 2);
    assert_eq!(bucket_index(&bounds, 10), 3);
    assert_eq!(bucket_index(&bounds, 11), 4);
    assert_eq!(bucket_index(&[], 7), 0);
}

#[test]
fn histogram_counts_samples() {
    let mut h = LatencyHistogram::new(vec![10, 100]);
    h.record(Duration::from_micros(5));
    h.record(Duration::from_micros(50));
    h.record(Duration::from_micros(500));
    h.record(Duration::from_micros(100));
    let s = h.snapshot();
    assert_eq!(s.bounds_us, vec![10, 100]);
    assert_eq!(s.buckets, vec![1, 2, 1]);
    assert_eq!(s.samples, 4);
    assert_eq!(s.sum_us, 655);
}

#[test]
fn metrics_counters() {
    let mut m = Metrics::new();
    m.record_request_start();
    m.record_request_start();
    m.record_request_end(Duration::from_micros(3));
    m.record_error();
    let s = m.snapshot();
    assert_eq!(s.requests_total, 2);
    assert_eq!(s.errors_total, 1);
    assert_eq!(s.inflight, 1);
    assert_eq!(s.latency.bounds_us, vec![1, 2, 5, 10, 20, 50, 100, 200, 500, 1000, 2000, 5000]);
    assert_eq!(s.latency.buckets.len(), 13);
    assert_eq!(s.latency.buckets[2], 1);
    let custom = Metrics::with_latency_buckets(vec![7]);
    assert_eq!(custom.snapshot().latency.buckets, vec![0, 0]);
}

#[test]
fn counters_wrap_like_atomics() {
    let mut h = LatencyHistogram::new(vec![1]);
    h.record_micros(u64::MAX);
    h.record_micros(2);
    let s = h.snapshot();
    assert_eq!(s.sum_us, 1);
    assert_eq!(s.buckets, vec![0, 2]);
}
