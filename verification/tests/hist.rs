use jsonl_peek::hist::{Histogram, Rank};

fn log_bucket_index(value: u64) -> usize {
    ((value as f64 / 16.0).ln() / 1.03f64.ln()).floor() as usize
}

fn bucket_lower_bound(idx: usize) -> u64 {
    (16.0 * 1.03f64.powi(idx as i32)) as u64
}

/// Adds `value`, computing its log bucket as a caller does.
fn add(h: &mut Histogram, value: u64) {
    let idx = if value >= 16 { log_bucket_index(value) } else { 0 };
    h.add(value, idx);
}

fn mean(h: &Histogram) -> f64 {
    if h.count() == 0 {
        0.0
    } else {
        h.sum() as f64 / h.count() as f64
    }
}

fn percentile(h: &Histogram, p: f64) -> u64 {
    if h.count() == 0 {
        return 0;
    }
    let p = p.clamp(0.0, 1.0);
    if p >= 1.0 {
        return h.max();
    }
    let target = ((h.count() as f64) * p).ceil().max(1.0) as u64;
    match h.locate_rank(target) {
        Rank::Exact(v) => v,
        Rank::Log(idx) => bucket_lower_bound(idx),
        Rank::Max => h.max(),
    }
}

#[test]
fn empty_histogram_reports_zero() {
    let h = Histogram::new();
    assert_eq!(h.count(), 0);
    assert_eq!(h.min(), 0);
    assert_eq!(h.max(), 0);
    assert_eq!(mean(&h), 0.0);
    assert_eq!(percentile(&h, 0.5), 0);
}

#[test]
fn tracks_exact_min_max_mean() {
    let mut h = Histogram::new();
    for v in [5u64, 800, 12, 1, 400] {
        add(&mut h, v);
    }
    assert_eq!(h.count(), 5);
    assert_eq!(h.min(), 1);
    assert_eq!(h.max(), 800);
    assert_eq!(mean(&h), (5 + 800 + 12 + 1 + 400) as f64 / 5.0);
}

#[test]
fn small_values_are_exact() {
    let mut h = Histogram::new();
    for _ in 0..3 {
        add(&mut h, 4);
    }
    for _ in 0..7 {
        add(&mut h, 10);
    }
    // 10 values total: ranks 1-3 fall in the bucket for 4, ranks 4-10 in
    // the bucket for 10.
    assert_eq!(percentile(&h, 0.1), 4);
    assert_eq!(percentile(&h, 0.3), 4);
    assert_eq!(percentile(&h, 0.31), 10);
    assert_eq!(percentile(&h, 1.0), 10);
}

#[test]
fn approximates_large_percentiles_within_error_bound() {
    let mut h = Histogram::new();
    for v in 1..=100_000u64 {
        add(&mut h, v);
    }
    for &(p, exact) in &[(0.5, 50_000.0), (0.9, 90_000.0), (0.99, 99_000.0)] {
        let got = percentile(&h, p) as f64;
        let relative_error = (exact - got).abs() / exact;
        assert!(
            relative_error <= 0.03,
            "p{p}: exact {exact}, got {got}, relative error {relative_error}"
        );
    }
}

#[test]
fn max_is_reachable_at_the_top_percentile() {
    let mut h = Histogram::new();
    for v in [1u64, 2, 1_000_000] {
        add(&mut h, v);
    }
    assert_eq!(percentile(&h, 1.0), h.max());
}

#[test]
fn sum_is_exact() {
    let mut h = Histogram::new();
    for v in [3u64, 30, 300] {
        add(&mut h, v);
    }
    assert_eq!(h.sum(), 333);
}

#[test]
fn locate_rank_walks_exact_then_log_buckets() {
    let mut h = Histogram::new();
    h.add(2, 0);
    h.add(2, 0);
    h.add(100, 5);
    h.add(200, 7);
    assert!(matches!(h.locate_rank(0), Rank::Exact(2)));
    assert!(matches!(h.locate_rank(2), Rank::Exact(2)));
    assert!(matches!(h.locate_rank(3), Rank::Log(5)));
    assert!(matches!(h.locate_rank(4), Rank::Log(7)));
    assert!(matches!(h.locate_rank(5), Rank::Max));
}

#[test]
fn values_below_sixteen_ignore_the_log_index() {
    let mut h = Histogram::new();
    h.add(15, 99);
    assert!(matches!(h.locate_rank(1), Rank::Exact(15)));
    assert_eq!(h.min(), 15);
    assert_eq!(h.max(), 15);
}
