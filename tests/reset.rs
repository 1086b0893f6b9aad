use spacetraders_gateway::reset::{wait_for_reset, wait_until, Timestamp};

#[test]
fn wait_until_counts_nanoseconds_to_the_reset() {
    let now = Timestamp { secs: 100, nanos: 250 };
    let reset = Timestamp { secs: 103, nanos: 500 };
    assert_eq!(wait_until(&now, &reset), 3_000_000_250);
}

#[test]
fn wait_until_a_passed_reset_is_zero() {
    let now = Timestamp { secs: 100, nanos: 0 };
    assert_eq!(wait_until(&now, &Timestamp { secs: 99, nanos: 999_999_999 }), 0);
    assert_eq!(wait_until(&now, &now), 0);
    assert_eq!(wait_until(&now, &Timestamp { secs: -5, nanos: 0 }), 0);
}

#[test]
fn wait_until_is_capped() {
    let now = Timestamp { secs: i64::MIN, nanos: 0 };
    let reset = Timestamp { secs: i64::MAX, nanos: 0 };
    assert_eq!(wait_until(&now, &reset), u64::MAX);
}

/// 2024-01-01T00:00:00Z.
const NEW_YEAR: Timestamp = Timestamp { secs: 1_704_067_200, nanos: 0 };

#[test]
fn reset_header_is_measured_from_now() {
    assert_eq!(wait_for_reset(Some("2024-01-01T00:00:03Z"), &NEW_YEAR), Some(3_000_000_000));
    assert_eq!(wait_for_reset(Some("2024-01-01T00:00:00.25+00:00"), &NEW_YEAR), Some(250_000_000));
    assert_eq!(wait_for_reset(Some("2023-12-31T19:00:01-05:00"), &NEW_YEAR), Some(1_000_000_000));
    assert_eq!(wait_for_reset(Some("1999-12-31T23:59:59.5-05:00"), &NEW_YEAR), Some(0));
}

#[test]
fn unparseable_reset_header_gives_no_wait() {
    assert_eq!(wait_for_reset(Some("not a date"), &NEW_YEAR), None);
    assert_eq!(wait_for_reset(Some(""), &NEW_YEAR), None);
    assert_eq!(wait_for_reset(Some("2024-01-01 00:00:03"), &NEW_YEAR), None);
    assert_eq!(wait_for_reset(None, &NEW_YEAR), None);
}
