use spacetraders_gateway::backoff::BackoffPolicy;

const SECOND: u64 = 1_000_000_000;

#[test]
fn documented_policy_waits_ten_fifteen_twenty_two_and_a_half_seconds() {
    let p = BackoffPolicy::default();
    assert_eq!(p.delay(0), 10 * SECOND);
    assert_eq!(p.delay(1), 15 * SECOND);
    assert_eq!(p.delay(2), 22 * SECOND + SECOND / 2);
    assert_eq!(p.delay(3), 33 * SECOND + 3 * SECOND / 4);
}

#[test]
fn documented_policy_matches_ten_times_one_and_a_half_to_the_k() {
    let p = BackoffPolicy::default();
    for k in 0..53u64 {
        let exact = 10.0 * 1.5f64.powi(k as i32) * 1e9;
        let got = p.delay(k) as f64;
        assert!(p.delay(k) < u64::MAX);
        assert!(((got - exact) / exact).abs() < 1e-9, "attempt {k}: {got} vs {exact}");
    }
}

#[test]
fn backoff_strictly_increases_until_the_cap() {
    let p = BackoffPolicy::default();
    let mut prev = p.delay(0);
    for k in 1..80u64 {
        let d = p.delay(k);
        if d < u64::MAX {
            assert!(d > prev);
        }
        prev = d;
    }
}

#[test]
fn backoff_saturates_at_the_largest_duration() {
    let p = BackoffPolicy::default();
    assert_eq!(p.delay(200), u64::MAX);
    assert_eq!(p.delay(u64::MAX), u64::MAX);
    assert_eq!(p.wait(200, 5), u64::MAX);
}

#[test]
fn zero_denominator_is_rejected() {
    assert!(BackoffPolicy::new(10, 3, 0, 1, None, 0).is_none());
    assert!(BackoffPolicy::new(10, 3, 2, 1, None, 0).is_some());
}

#[test]
fn exponent_step_applies_the_base_that_many_times() {
    let p = BackoffPolicy::new(1000, 2, 1, 3, None, 0).unwrap();
    assert_eq!(p.delay(0), 1000);
    assert_eq!(p.delay(1), 8000);
    assert_eq!(p.delay(2), 64000);
}

#[test]
fn each_factor_rounds_down_to_the_nanosecond() {
    let p = BackoffPolicy::new(5, 3, 2, 1, None, 0).unwrap();
    // 5 -> 7 (7.5) -> 10 (10.5) -> 15
    assert_eq!(p.delay(1), 7);
    assert_eq!(p.delay(2), 10);
    assert_eq!(p.delay(3), 15);
}

#[test]
fn shrinking_base_decays_towards_zero() {
    let p = BackoffPolicy::new(100, 1, 2, 1, None, 0).unwrap();
    assert_eq!(p.delay(1), 50);
    assert_eq!(p.delay(3), 12);
    assert_eq!(p.delay(20), 0);
}

#[test]
fn jitter_adds_the_draw_modulo_its_bound() {
    let p = BackoffPolicy::new(1000, 3, 2, 1, None, 5).unwrap();
    assert_eq!(p.wait(0, 7), 1001);
    assert_eq!(p.wait(0, 12), 1000);
    assert_eq!(p.wait(1, 5), 1505);
    let unbounded = BackoffPolicy::new(1000, 3, 2, 1, None, u64::MAX).unwrap();
    assert_eq!(unbounded.wait(0, 42), 1042);
}

#[test]
fn retry_ceiling_is_reported() {
    assert_eq!(BackoffPolicy::default().max_retries(), None);
    let p = BackoffPolicy::new(1000, 3, 2, 1, Some(4), 0).unwrap();
    assert_eq!(p.max_retries(), Some(4));
}

#[test]
fn a_wait_that_stops_changing_is_returned_at_once() {
    let decaying = BackoffPolicy::new(100, 1, 2, 1, None, 0).unwrap();
    assert_eq!(decaying.delay(u64::MAX), 0);
    let flat = BackoffPolicy::new(7, 2, 2, u64::MAX, None, 0).unwrap();
    assert_eq!(flat.delay(u64::MAX), 7);
}
