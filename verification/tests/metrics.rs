use code_heatmap::data::metrics::{Metrics, Rate, MICRO};

fn per_day(rate: Rate) -> f64 {
    if rate.window_days == 0 {
        0.0
    } else {
        rate.micro_touches as f64 / (MICRO as f64 * rate.window_days as f64)
    }
}

fn lines_bucket(lines: usize) -> usize {
    Metrics::new(lines, Rate::zero()).lines_category()
}

fn rate_bucket(touches: u64, days: u64) -> usize {
    Metrics::new(0, Rate::from_touches(touches, days)).change_frequency_category()
}

#[test]
fn line_count_of_exactly_fifty_is_bucket_one() {
    assert_eq!(lines_bucket(49), 0);
    assert_eq!(lines_bucket(50), 1);
}

#[test]
fn line_buckets_start_at_their_lower_bound() {
    assert_eq!(lines_bucket(0), 0);
    assert_eq!(lines_bucket(99), 1);
    assert_eq!(lines_bucket(100), 2);
    assert_eq!(lines_bucket(199), 2);
    assert_eq!(lines_bucket(200), 3);
    assert_eq!(lines_bucket(499), 3);
    assert_eq!(lines_bucket(500), 4);
    assert_eq!(lines_bucket(999), 4);
    assert_eq!(lines_bucket(1000), 5);
    assert_eq!(lines_bucket(usize::MAX), 5);
}

#[test]
fn change_rate_of_exactly_one_point_seven_is_bucket_one() {
    // 17 touches in 10 days are 1.7 touches per day
    assert_eq!(rate_bucket(17, 10), 1);
    assert_eq!(rate_bucket(51, 30), 1);
    assert_eq!(rate_bucket(50, 30), 0);
}

#[test]
fn rate_buckets_start_at_their_lower_bound() {
    assert_eq!(rate_bucket(0, 10), 0);
    assert_eq!(rate_bucket(16, 10), 0);
    assert_eq!(rate_bucket(33, 10), 1);
    assert_eq!(rate_bucket(34, 10), 2);
    assert_eq!(rate_bucket(51, 10), 2);
    assert_eq!(rate_bucket(52, 10), 3);
    assert_eq!(rate_bucket(68, 10), 3);
    assert_eq!(rate_bucket(69, 10), 4);
    assert_eq!(rate_bucket(1000, 10), 4);
}

#[test]
fn rate_thresholds_are_exact_for_awkward_windows() {
    // 1.7 * 7 = 11.9: eleven touches in a week are below, twelve above
    assert_eq!(rate_bucket(11, 7), 0);
    assert_eq!(rate_bucket(12, 7), 1);
    // 6.9 * 30 = 207
    assert_eq!(rate_bucket(206, 30), 3);
    assert_eq!(rate_bucket(207, 30), 4);
}

#[test]
fn rate_over_an_empty_window_is_zero() {
    let rate = Rate::from_touches(5, 0);
    assert_eq!(per_day(rate), 0.0);
    assert_eq!(Metrics::new(0, rate).change_frequency_category(), 0);
    assert!(rate.is_below_tenths(1));
    assert!(!rate.is_below_tenths(0));
}

#[test]
fn rate_from_touches_is_touches_over_days() {
    let rate = Rate::from_touches(3, 30);
    assert_eq!(rate.micro_touches, 3_000_000);
    assert_eq!(rate.window_days, 30);
    assert_eq!(per_day(rate), 0.1);
    let largest = Rate::from_touches(u64::MAX, 1);
    assert_eq!(largest.micro_touches, u64::MAX as u128 * MICRO as u128);
    assert_eq!(Metrics::new(0, largest).change_frequency_category(), 4);
}

#[test]
fn zero_rate_has_no_touches() {
    let zero = Rate::zero();
    assert_eq!(zero.micro_touches, 0);
    assert_eq!(zero.window_days, 0);
    assert!(zero.is_below_tenths(17));
}

#[test]
fn is_below_tenths_compares_with_tenths_of_a_touch() {
    let rate = Rate::from_touches(17, 10);
    assert!(!rate.is_below_tenths(17));
    assert!(rate.is_below_tenths(18));
    assert!(!rate.is_below_tenths(0));
    let large = Rate { micro_touches: u64::MAX as u128, window_days: u64::MAX as u128 };
    assert!(large.is_below_tenths(1));
    let steep = Rate { micro_touches: u128::MAX, window_days: 1 };
    assert!(!steep.is_below_tenths(255));
    let wide = Rate { micro_touches: u128::MAX, window_days: u64::MAX as u128 };
    assert!(!wide.is_below_tenths(255));
    let widest = Rate { micro_touches: u128::MAX, window_days: u128::MAX };
    assert!(widest.is_below_tenths(1));
    assert!(!widest.is_below_tenths(0));
}

#[test]
fn default_metrics_are_empty() {
    let metrics = Metrics::default();
    assert_eq!(metrics.lines, 0);
    assert_eq!(metrics.change_frequency.micro_touches, 0);
    assert_eq!(metrics.lines_category(), 0);
    assert_eq!(metrics.change_frequency_category(), 0);
}

#[test]
fn new_metrics_keep_what_they_are_given() {
    let metrics = Metrics::new(120, Rate::from_touches(40, 10));
    assert_eq!(metrics.lines, 120);
    assert_eq!(metrics.change_frequency.micro_touches, 40_000_000);
    assert_eq!(metrics.lines_category(), 2);
    assert_eq!(metrics.change_frequency_category(), 2);
}
