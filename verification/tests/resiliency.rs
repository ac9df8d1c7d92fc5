use oxide::resiliency::{
    after_failed_attempt, exhausted, CircuitBreaker, CircuitBreakerConfig, CircuitError,
    CircuitState, RetryError, RetryStep, TimeoutError,
};

#[test]
fn circuit_state_display() {
    assert_eq!(CircuitState::Closed.to_string(), "Closed");
    assert_eq!(CircuitState::Open.to_string(), "Open");
    assert_eq!(CircuitState::HalfOpen.to_string(), "Half-Open");
}

#[test]
fn circuit_error_display() {
    let err: CircuitError<String> = CircuitError::Open;
    assert_eq!(err.to_string(), "circuit breaker is open");

    let err: CircuitError<&str> = CircuitError::Failed("oops");
    assert!(err.to_string().contains("oops"));
}

#[test]
fn retry_error_display() {
    let err = RetryError { attempts: 3, last_error: "timeout" };
    let msg = err.to_string();
    assert!(msg.contains("3"));
    assert!(msg.contains("timeout"));
}

#[test]
fn timeout_error_display() {
    let err = TimeoutError { ms: 5000 };
    assert!(err.to_string().contains("5000"));
}

#[test]
fn timeout_error_message_is_exact() {
    assert_eq!(TimeoutError { ms: 5000 }.to_string(), "operation timed out after 5000ms");
    assert_eq!(TimeoutError { ms: 0 }.to_string(), "operation timed out after 0ms");
}

#[test]
fn retry_error_message_is_exact() {
    let err = RetryError { attempts: 12, last_error: "boom" };
    assert_eq!(err.to_string(), "all 12 retry attempts failed: \"boom\"");
}

#[test]
fn circuit_error_failed_message() {
    let err: CircuitError<&str> = CircuitError::Failed("oops");
    assert_eq!(err.to_string(), "request failed: \"oops\"");
}

fn breaker(threshold: u32) -> CircuitBreaker {
    CircuitBreaker::new(CircuitBreakerConfig { failure_threshold: threshold, reset_timeout_ms: 5000 })
}

#[test]
fn breaker_starts_closed() {
    let mut b = breaker(3);
    assert_eq!(b.state, CircuitState::Closed);
    assert_eq!(b.failure_count, 0);
    assert_eq!(b.success_count, 0);
    assert!(b.check_request::<()>().is_ok());
    assert_eq!(b.reset_timeout_ms(), 5000);
}

#[test]
fn breaker_opens_at_threshold() {
    let mut b = breaker(3);
    assert!(!b.record_failure());
    assert!(!b.record_failure());
    assert_eq!(b.state, CircuitState::Closed);
    assert!(b.record_failure());
    assert_eq!(b.state, CircuitState::Open);
    assert_eq!(b.failure_count, 3);
    assert!(matches!(b.check_request::<()>(), Err(CircuitError::Open)));
}

#[test]
fn breaker_half_open_after_timeout_then_closes_on_success() {
    let mut b = breaker(1);
    let (r, opened) = b.settle::<u8, &str>(Err("down"));
    assert!(opened);
    assert!(matches!(r, Err(CircuitError::Failed("down"))));
    assert_eq!(b.state, CircuitState::Open);
    b.reset_timeout_elapsed();
    assert_eq!(b.state, CircuitState::HalfOpen);
    assert!(b.check_request::<()>().is_ok());
    assert!(b.trial_in_flight);
    assert!(matches!(b.check_request::<()>(), Err(CircuitError::Open)));
    let (r, opened) = b.settle::<u8, &str>(Ok(7));
    assert!(!b.trial_in_flight);
    assert!(!opened);
    assert!(matches!(r, Ok(7)));
    assert_eq!(b.state, CircuitState::Closed);
    assert_eq!(b.failure_count, 0);
    assert_eq!(b.success_count, 1);
}

#[test]
fn breaker_half_open_failure_reopens() {
    let mut b = breaker(2);
    b.record_failure();
    b.record_failure();
    b.reset_timeout_elapsed();
    assert!(b.record_failure());
    assert_eq!(b.state, CircuitState::Open);
    assert_eq!(b.failure_count, 3);
}

#[test]
fn breaker_reset_returns_to_initial_state() {
    let mut b = breaker(1);
    b.record_success();
    b.record_failure();
    assert_eq!(b.state, CircuitState::Open);
    b.reset();
    assert_eq!(b.state, CircuitState::Closed);
    assert_eq!(b.failure_count, 0);
    assert_eq!(b.success_count, 0);
    assert!(!b.trial_in_flight);
}

#[test]
fn settle_success_with_full_failure_count() {
    let mut b = breaker(3);
    b.failure_count = u32::MAX;
    let (r, opened) = b.settle::<u8, &str>(Ok(1));
    assert!(matches!(r, Ok(1)));
    assert!(!opened);
    assert_eq!(b.failure_count, 0);
}

#[test]
fn retry_steps() {
    assert_eq!(after_failed_attempt(0, 3), RetryStep::Wait);
    assert_eq!(after_failed_attempt(1, 3), RetryStep::Wait);
    assert_eq!(after_failed_attempt(2, 3), RetryStep::GiveUp);
    assert_eq!(after_failed_attempt(0, 1), RetryStep::GiveUp);
    let e = exhausted(3, "last");
    assert_eq!(e.attempts, 3);
    assert_eq!(e.last_error, "last");
}
