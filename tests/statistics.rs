use arestat::stats::{decimal, fmt_time, Stats, TimeUnit, N_BINS};

fn one_to_hundred() -> Vec<u128> {
    (1..=100u128).rev().collect()
}

#[test]
fn percentiles_of_one_to_hundred() {
    let stats = Stats::new(1_000, one_to_hundred(), 100);
    // nearest rank round(100 * 0.95) = 95, counted from one
    assert_eq!(stats.p95, 95);
    assert_eq!(stats.p05, 5);
    assert_eq!(stats.p99, 99);
    assert_eq!(stats.min, 1);
    assert_eq!(stats.max, 100);
    assert_eq!(stats.timers, (1..=100u128).collect::<Vec<_>>());
}

#[test]
fn percentiles_are_deterministic() {
    let a = Stats::new(1_000, one_to_hundred(), 100);
    let b = Stats::new(1_000, (1..=100u128).collect(), 100);
    assert_eq!((a.p05, a.p95, a.p99), (b.p05, b.p95, b.p99));
}

#[test]
fn percentile_rank_is_clamped_for_one_sample() {
    let stats = Stats::new(10, vec![42], 1);
    assert_eq!((stats.p05, stats.p95, stats.p99, stats.min, stats.max), (42, 42, 42, 42, 42));
}

#[test]
fn average_is_integer_division() {
    let stats = Stats::new(1_000, vec![1, 2, 3], 3);
    assert_eq!(stats.avg_time_per_request, 333);
}

#[test]
fn histogram_of_one_to_hundred() {
    let stats = Stats::new(1_000, one_to_hundred(), 100);
    // p05 = 5, p95 = 95: bins are 9 wide
    assert_eq!(stats.bin_size, 9);
    assert_eq!(stats.bin_lower_range, vec![5, 14, 23, 32, 41, 50, 59, 68, 77, 86]);
    assert_eq!(stats.bins, vec![10, 9, 9, 9, 9, 9, 9, 9, 9, 9]);
    // samples above 95 fall outside the last bin
    assert_eq!(stats.bins.iter().sum::<usize>(), 91);
}

#[test]
fn histogram_bin_size_rounds_up() {
    let stats = Stats::new(1_000, (0..=20u128).collect(), 21);
    assert_eq!((stats.p05, stats.p95), (0, 19));
    assert_eq!(stats.bin_size, 2);
}

#[test]
fn histogram_holds_every_sample_when_none_exceeds_the_last_edge() {
    let stats = Stats::new(1_000, vec![5, 5, 5, 5], 4);
    assert_eq!(stats.bin_size, 0);
    assert_eq!(stats.bins[0], 4);
    assert_eq!(stats.bins.iter().sum::<usize>(), 4);
}

#[test]
fn histogram_drops_samples_beyond_the_last_edge() {
    let mut samples = vec![10u128; 40];
    samples.push(1_000);
    let stats = Stats::new(1_000, samples, 41);
    assert_eq!((stats.p05, stats.p95, stats.p99, stats.max), (10, 10, 1_000, 1_000));
    assert_eq!(stats.bins.iter().sum::<usize>(), 40);
    assert!(stats.bins.iter().sum::<usize>() < stats.timers.len());
}

#[test]
fn bin_bounds_and_bars() {
    let stats = Stats::new(1_000, one_to_hundred(), 100);
    let unit = stats.unit();
    assert_eq!(unit, TimeUnit::Nanos);
    assert_eq!(stats.bin_bounds(0, unit), (5, 14));
    assert_eq!(stats.bin_bounds(1, unit), (15, 23));
    assert_eq!(stats.bin_bounds(N_BINS - 1, unit), (87, 95));
    assert_eq!(stats.bar_len(0), 20);
    assert_eq!(stats.bar_len(1), 18);
}

#[test]
fn unit_follows_p95() {
    assert_eq!(TimeUnit::for_p95(10_000), TimeUnit::Nanos);
    assert_eq!(TimeUnit::for_p95(10_001), TimeUnit::Micros);
    assert_eq!(TimeUnit::for_p95(10_000_001), TimeUnit::Millis);
    assert_eq!(TimeUnit::for_p95(10_000_000_001), TimeUnit::Secs);
    assert_eq!(TimeUnit::Millis.factor(), 1_000_000);
    assert_eq!(TimeUnit::Micros.label(), "µs");
    assert_eq!(TimeUnit::Secs.label(), "s");
}

#[test]
fn decimal_text() {
    assert_eq!(decimal(0), "0");
    assert_eq!(decimal(7), "7");
    assert_eq!(decimal(1_234_567_890), "1234567890");
    assert_eq!(decimal(u128::MAX), u128::MAX.to_string());
}

#[test]
fn fmt_time_units() {
    assert_eq!(fmt_time(5_000_000), "5000 µs");
    assert_eq!(fmt_time(10_000_000), "10000 µs");
    assert_eq!(fmt_time(10_001_000), "10 ms");
    assert_eq!(fmt_time(12_345_678_901), "12.345 s");
    assert_eq!(fmt_time(20_000_000_000), "20.0 s");
    assert_eq!(fmt_time(90_000_000_000), "1:30.0 ");
    assert_eq!(fmt_time(999), "0 µs");
}

#[test]
fn percentile_ranks_of_twenty_samples() {
    let stats = Stats::new(1_000, (1..=20u128).collect(), 20);
    // ranks round(1), round(19), round(19.8) = 1, 19, 20
    assert_eq!((stats.p05, stats.p95, stats.p99), (1, 19, 20));
}

#[test]
fn histogram_edges_saturate_at_the_largest_latency() {
    let stats = Stats::new(1, vec![u128::MAX, 0], 2);
    assert_eq!((stats.p05, stats.p95), (0, u128::MAX));
    assert_eq!(stats.bin_size, u128::MAX / 10 + 1);
    assert_eq!(stats.bins, vec![1, 0, 0, 0, 0, 0, 0, 0, 0, 1]);
    assert_eq!(stats.bin_lower_range[9], 9 * (u128::MAX / 10 + 1));
}
