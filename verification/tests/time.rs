use stadhouder::config::Config;
use stadhouder::time::{
    calendar_millis, calendar_now_millis, elapsed_ms, now_millis, simtime, since_epoch, wait_factor,
    SinceEpoch,
};

/// Simulated time at a rate.
fn sim(cal_ms: i64, factor_start_ms: i64, factor: f64, diff_ms: i64) -> i64 {
    let scaled = (elapsed_ms(cal_ms, factor_start_ms) as f64 * factor) as i64;
    simtime(factor_start_ms, scaled, diff_ms)
}

#[test]
fn simtime_formula() {
    // start + (cal - start) * factor + diff
    assert_eq!(sim(2_000, 1_000, 5.0, 30), 1_000 + 5_000 + 30);
    assert_eq!(sim(3_000, 1_000, 0.5, 0), 1_000 + 1_000);
}

#[test]
fn simtime_at_factor_one_is_calendar_plus_diff() {
    assert_eq!(sim(123_456, 99_999, 1.0, 700), 123_456 + 700);
}

#[test]
fn production_never_touches_state() {
    let config = Config { test_env: false, ..Default::default() };
    let real = calendar_now_millis().unwrap();
    let engine = now_millis(&config, calendar_now_millis().unwrap()).unwrap();
    assert!((engine - real).abs() < 1_000);
    assert_eq!(wait_factor(&config).unwrap() as f64, 1.0);
}

#[test]
fn a_test_instance_goes_by_its_state() {
    let config = Config { test_env: true, ..Default::default() };
    assert_eq!(now_millis(&config, 1_700_000_000_000), None);
    assert_eq!(wait_factor(&config), None);
}

#[test]
fn the_calendar_counts_from_1970() {
    assert_eq!(calendar_millis(None), None);
    assert_eq!(calendar_millis(Some(0)), Some(0));
    assert_eq!(calendar_millis(Some(1_700_000_000_123)), Some(1_700_000_000_123));
    assert_eq!(calendar_millis(Some(u64::MAX as u128)), Some(-1));
    let first = calendar_now_millis().unwrap();
    let second = calendar_now_millis().unwrap();
    assert!(first > 1_600_000_000_000);
    assert!((second - first).abs() < 10_000);
}

#[test]
fn times_before_1970_count_backwards() {
    assert!(since_epoch(0) == SinceEpoch::After(0));
    assert!(since_epoch(12) == SinceEpoch::After(12));
    assert!(since_epoch(-1) == SinceEpoch::Before(1));
    assert!(since_epoch(i64::MIN) == SinceEpoch::Before(1 << 63));
}
