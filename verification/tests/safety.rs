use wayhand_mcp::safety::{
    settle_duration, Admission, Budget, BudgetError, DEFAULT_SETTLE_MS, MAX_SETTLE_MS,
};
use wayhand_mcp::time::Duration;

#[test]
fn settle_ms_defaults_and_accepts_bounds() {
    assert_eq!(
        settle_duration(None).unwrap(),
        Duration::from_millis(DEFAULT_SETTLE_MS as u64)
    );
    assert_eq!(settle_duration(Some(0)).unwrap(), Duration::from_millis(0));
    assert_eq!(
        settle_duration(Some(MAX_SETTLE_MS)).unwrap(),
        Duration::from_millis(MAX_SETTLE_MS as u64)
    );
}

#[test]
fn settle_ms_rejects_negative_and_too_large_values() {
    assert!(settle_duration(Some(-1)).is_err());
    assert!(settle_duration(Some(MAX_SETTLE_MS + 1)).is_err());
}

#[test]
fn settle_error_names_the_range() {
    let negative = settle_duration(Some(-1)).unwrap_err();
    let large = settle_duration(Some(MAX_SETTLE_MS + 1)).unwrap_err();
    assert!(negative.contains("10000"), "{negative}");
    assert!(large.contains("10000"), "{large}");
}

#[test]
fn circuit_breaker_trips_at_limit_and_resets_after_screenshot() {
    let mut budget = Budget::with_config(3, Duration::from_millis(0));
    let now = Duration::from_millis(0);

    for _ in 0..3 {
        assert_eq!(budget.before_injection(now), Ok(Admission::Granted));
        budget.injection_succeeded(now);
    }
    assert_eq!(budget.consecutive_injections(), 3);
    assert_eq!(
        budget.before_injection(now),
        Err(BudgetError::CircuitBreakerTripped { limit: 3 })
    );

    budget.screenshot_completed();
    assert_eq!(budget.consecutive_injections(), 0);
    assert_eq!(budget.before_injection(now), Ok(Admission::Granted));
}

#[test]
fn injection_is_not_counted_until_it_succeeds() {
    let mut budget = Budget::with_config(3, Duration::from_millis(0));
    let now = Duration::from_millis(0);

    assert_eq!(budget.before_injection(now), Ok(Admission::Granted));
    assert_eq!(budget.consecutive_injections(), 0);
    budget.injection_succeeded(now);
    assert_eq!(budget.consecutive_injections(), 1);
}

#[test]
fn stopped_budget_refuses_injection() {
    let mut budget = Budget::with_config(3, Duration::from_millis(0));
    budget.stop();

    assert_eq!(
        budget.before_injection(Duration::from_millis(0)),
        Err(BudgetError::Stopped)
    );
    assert!(budget.is_stopped());
}

#[test]
fn injections_are_kept_apart_in_time() {
    let mut budget = Budget::new();
    let at = |millis: u64| Duration::from_millis(millis);
    assert_eq!(budget.before_injection(at(5)), Ok(Admission::Granted));
    budget.injection_succeeded(at(5));
    assert_eq!(budget.before_injection(at(12)), Ok(Admission::Wait(at(13))));
    assert_eq!(budget.before_injection(at(24)), Ok(Admission::Wait(at(1))));
    assert_eq!(budget.before_injection(at(25)), Ok(Admission::Granted));
    assert_eq!(budget.before_injection(at(0)), Ok(Admission::Wait(at(20))));
}

#[test]
fn stop_outlives_a_screenshot_and_comes_before_the_limit() {
    let mut budget = Budget::with_config(0, Duration::from_millis(0));
    let now = Duration::from_millis(0);
    assert_eq!(
        budget.before_injection(now),
        Err(BudgetError::CircuitBreakerTripped { limit: 0 })
    );
    budget.stop();
    budget.screenshot_completed();
    assert_eq!(budget.before_injection(now), Err(BudgetError::Stopped));
}

#[test]
fn budget_errors_say_what_to_do() {
    assert_eq!(
        BudgetError::CircuitBreakerTripped { limit: 200 }.message(),
        "input injection circuit breaker tripped after 200 injections without a successful screenshot; call screenshot before injecting again"
    );
    assert_eq!(BudgetError::Stopped.message(), "input injection stopped after SIGINT");
}

#[test]
fn spans_count_whole_milliseconds() {
    assert_eq!(Duration { nanos: 1_999_999 }.as_millis(), 1);
    assert_eq!(Duration { nanos: u128::MAX }.as_millis(), u64::MAX);
    assert!(Duration::from_millis(0).is_zero());
    assert!(!Duration { nanos: 1 }.is_zero());
}

#[test]
fn no_more_injections_go_through_than_the_limit_allows() {
    let mut budget = Budget::with_config(5, Duration::from_millis(3));
    let mut granted = Vec::new();
    for millis in 0..100 {
        let now = Duration::from_millis(millis);
        if budget.before_injection(now) == Ok(Admission::Granted) {
            budget.injection_succeeded(now);
            granted.push(millis);
        }
    }
    assert_eq!(granted, vec![0, 3, 6, 9, 12]);
}
