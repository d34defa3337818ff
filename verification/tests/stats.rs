use std::time::Duration;

use kiryuu::store::TrackerStats;

#[test]
fn records_microseconds_and_histogram_buckets() {
    let mut stats = TrackerStats::default();
    stats.record_announce(Duration::from_micros(200));

    assert_eq!(stats.req_duration_sum_us, 200);
    assert_eq!(stats.histogram_count, 1);

    let (_, count, buckets) = stats.histogram_snapshot();
    assert_eq!(count, 1);
    assert!(buckets[2] >= 1); // le=0.00025 (200µs)
}

// Buckets are cumulative: each bucket at or above the duration counts it.
#[test]
fn histogram_counts_every_bucket_at_or_above() {
    let mut stats = TrackerStats::new();
    stats.record_announce_nanos(200_000);
    let (sum_us, count, buckets) = stats.histogram_snapshot();
    assert_eq!((sum_us, count), (200, 1));
    assert_eq!(buckets[0], 0);
    assert_eq!(buckets[1], 0);
    for b in &buckets[2..] {
        assert_eq!(*b, 1);
    }
    // A request past the last bound counts in no bucket.
    stats.record_announce_nanos(20_000_000_000);
    let (_, count, buckets) = stats.histogram_snapshot();
    assert_eq!(count, 2);
    assert_eq!(buckets[16], 1);
    assert_eq!(stats.snapshot(), (0, 0, 2, 20_000, 20_000_200));
}

#[test]
fn counters_count_and_wrap() {
    let mut stats = TrackerStats::new();
    stats.record_nochange();
    stats.record_cache_hit();
    stats.record_cache_hit();
    assert_eq!(stats.snapshot(), (1, 2, 0, 0, 0));
    stats.nochange_count = u64::MAX;
    stats.record_nochange();
    assert_eq!(stats.snapshot().0, 0);
}

#[test]
fn sweep_and_refresh_counters() {
    let mut stats = TrackerStats::new();
    stats.record_sweep(Duration::from_micros(1500), 3, 2, 1);
    stats.record_sweep_nanos(500_999, 1, 0, 0);
    stats.record_index_repair(4);
    stats.record_totals_refresh(Duration::from_millis(7));
    let sweep = stats.sweep_snapshot();
    assert_eq!(sweep.last_duration_us, 500);
    assert_eq!(sweep.duration_sum_us, 2000);
    assert_eq!(sweep.count, 2);
    assert_eq!(sweep.visited, 4);
    assert_eq!(sweep.removed, 2);
    assert_eq!(sweep.orphans_removed, 1);
    assert_eq!(sweep.index_repaired, 4);
    assert_eq!(sweep.totals_refresh_last_us, 7000);
}

// Over a run of requests, each bucket counts those within its bound.
#[test]
fn histogram_counts_each_request_within_bound() {
    let mut stats = TrackerStats::new();
    let durations: [u128; 6] = [10_000, 60_000, 100_000, 3_000_000, 9_999_999_999, 11_000_000_000];
    for d in durations {
        stats.record_announce_nanos(d);
    }
    let (_, count, buckets) = stats.histogram_snapshot();
    assert_eq!(count, 6);
    let bounds = kiryuu::store::HISTOGRAM_BUCKET_UPPER_BOUNDS_NANOS;
    for i in 0..17 {
        let within = durations.iter().filter(|d| **d <= bounds[i] as u128).count() as u64;
        assert_eq!(buckets[i], within);
        if i > 0 {
            assert!(buckets[i - 1] <= buckets[i]);
        }
    }
}

// Over a run of announces, the counts are the number of announces and the
// histogram sum adds up their whole microseconds.
#[test]
fn histogram_count_and_sum_over_a_run() {
    let mut stats = TrackerStats::default();
    let durations: [u128; 4] = [999, 1_500, 250_000, 7_000_001];
    for d in durations {
        stats.record_announce_nanos(d);
    }
    let (sum_us, count, _) = stats.histogram_snapshot();
    assert_eq!(count, 4);
    assert_eq!(stats.snapshot().2, 4);
    assert_eq!(sum_us, 0 + 1 + 250 + 7_000);
}
