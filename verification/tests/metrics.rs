use mac_autocomplete_engine::metrics::{Metrics, MAX_LATENCY_SAMPLES};

#[test]
fn test_metrics() {
    let mut metrics = Metrics::new();

    metrics.record_request();
    metrics.record_instant_latency(10);
    metrics.record_refined_latency(200);
    metrics.record_cache_hit();
    metrics.record_accept();

    let snapshot = metrics.snapshot();
    assert_eq!(snapshot.total_requests, 1);
    assert_eq!(snapshot.instant_latency_p50_ms as f64, 10.0);
    let cache_hit_rate =
        snapshot.cache_hits as f32 / (snapshot.cache_hits + snapshot.cache_misses) as f32;
    assert_eq!(cache_hit_rate, 1.0);
}

#[test]
fn percentiles_of_known_samples() {
    let mut metrics = Metrics::default();
    for v in [50u64, 10, 40, 20, 30, 100, 90, 80, 70, 60] {
        metrics.record_instant_latency(v);
    }
    let s = metrics.snapshot();
    // ten samples: p50 reads rank 5, p95 reads rank 9
    assert_eq!(s.instant_latency_p50_ms, 60);
    assert_eq!(s.instant_latency_p95_ms, 100);
    assert_eq!(s.refined_latency_p50_ms, 0);
    assert_eq!(s.refined_latency_p95_ms, 0);
}

#[test]
fn sample_buffer_keeps_latest() {
    let mut metrics = Metrics::new();
    for v in 0..(MAX_LATENCY_SAMPLES as u64 + 500) {
        metrics.record_refined_latency(v);
    }
    let s = metrics.snapshot();
    // samples 500..1499 remain: rank 500 is 1000, rank 950 is 1450
    assert_eq!(s.refined_latency_p50_ms, 1000);
    assert_eq!(s.refined_latency_p95_ms, 1450);
}

#[test]
fn counters_count() {
    let mut metrics = Metrics::new();
    metrics.record_cache_miss();
    metrics.record_cache_miss();
    metrics.record_cache_hit();
    assert_eq!(metrics.cache_misses(), 2);
    assert_eq!(metrics.cache_hits(), 1);
    assert_eq!(metrics.accepts(), 0);
    assert_eq!(metrics.total_requests(), 0);
}

#[test]
fn percentile_extremes_and_order() {
    let values: std::collections::VecDeque<u64> = vec![5u64, 1, 9, 7].into_iter().collect();
    assert_eq!(Metrics::percentile(&values, 0), 1);
    assert_eq!(Metrics::percentile(&values, 100), 9);
    assert_eq!(Metrics::percentile(&values, 50), 7);
    assert!(Metrics::percentile(&values, 50) <= Metrics::percentile(&values, 95));
    assert_eq!(Metrics::percentile(&std::collections::VecDeque::new(), 50), 0);
}
