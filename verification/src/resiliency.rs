//! Resiliency policies: the circuit breaker's state machine, the retry
//! schedule's attempt accounting, and the error values with their messages.
//!
//! The waiting (timers, sleeping, awaiting the protected operation) is done
//! by the caller; these types decide what happens at each step.

use vstd::prelude::*;
use crate::text::{decimal, decimal_string, push_decimal, debug_text};

verus! {

/// Circuit breaker states.
#[derive(Clone, Copy, PartialEq, Eq, Debug)]
pub enum CircuitState {
    /// Normal operation: requests pass through.
    Closed,
    /// Too many failures: requests are rejected immediately.
    Open,
    /// Testing recovery: requests are let through again.
    HalfOpen,
}

/// The display name of a state.
pub open spec fn state_name(s: CircuitState) -> Seq<char> {
    match s {
        CircuitState::Closed => "Closed"@,
        CircuitState::Open => "Open"@,
        CircuitState::HalfOpen => "Half-Open"@,
    }
}

impl CircuitState {
    /// The display name: "Closed", "Open" or "Half-Open".
    pub fn to_string(&self) -> (s: String)
        ensures
            s@ == state_name(*self),
    {
        match self {
            CircuitState::Closed => String::from_str("Closed"),
            CircuitState::Open => String::from_str("Open"),
            CircuitState::HalfOpen => String::from_str("Half-Open"),
        }
    }
}

/// Circuit breaker configuration.
pub struct CircuitBreakerConfig {
    /// Number of consecutive failures before the circuit opens.
    pub failure_threshold: u32,
    /// Time in ms before an open circuit lets requests through again.
    pub reset_timeout_ms: u32,
}

/// A circuit breaker that stops calling a failing service.
pub struct CircuitBreaker {
    pub state: CircuitState,
    pub failure_count: u32,
    pub success_count: u32,
    /// Whether the one trial request of a half-open circuit is under way.
    pub trial_in_flight: bool,
    pub config: CircuitBreakerConfig,
}

/// Error of a call made through a circuit breaker.
pub enum CircuitError<E> {
    /// The circuit is open: the request was not attempted.
    Open,
    /// The request was attempted and failed.
    Failed(E),
}

impl CircuitBreaker {
    /// The failure threshold of the configuration.
    pub open spec fn threshold(&self) -> u32 {
        self.config.failure_threshold
    }

    /// The reset timeout of the configuration.
    pub open spec fn timeout(&self) -> u32 {
        self.config.reset_timeout_ms
    }

    /// A closed breaker with no failures and no successes counted.
    pub fn new(config: CircuitBreakerConfig) -> (b: Self)
        ensures
            b.state == CircuitState::Closed,
            b.failure_count == 0,
            b.success_count == 0,
            !b.trial_in_flight,
            b.threshold() == config.failure_threshold,
            b.timeout() == config.reset_timeout_ms,
    {
        CircuitBreaker {
            state: CircuitState::Closed,
            failure_count: 0,
            success_count: 0,
            trial_in_flight: false,
            config,
        }
    }

    /// The configured reset timeout, in ms.
    pub fn reset_timeout_ms(&self) -> (ms: u32)
        ensures
            ms == self.timeout(),
    {
        self.config.reset_timeout_ms
    }

    /// Whether a request may be attempted. A closed circuit lets every
    /// request through; an open one refuses them; a half-open one lets one
    /// trial request through and refuses others until that trial settles.
    pub fn check_request<E>(&mut self) -> (r: Result<(), CircuitError<E>>)
        ensures
            r is Err <==> (old(self).state == CircuitState::Open || (old(self).state
                == CircuitState::HalfOpen && old(self).trial_in_flight)),
            r matches Err(e) ==> e is Open,
            final(self).trial_in_flight == (old(self).trial_in_flight || (old(self).state
                == CircuitState::HalfOpen && r is Ok)),
            final(self).state == old(self).state,
            final(self).failure_count == old(self).failure_count,
            final(self).success_count == old(self).success_count,
            final(self).threshold() == old(self).threshold(),
            final(self).timeout() == old(self).timeout(),
    {
        match self.state {
            CircuitState::Open => Err(CircuitError::Open),
            CircuitState::HalfOpen => {
                if self.trial_in_flight {
                    Err(CircuitError::Open)
                } else {
                    self.trial_in_flight = true;
                    Ok(())
                }
            },
            CircuitState::Closed => Ok(()),
        }
    }

    /// Records a successful call: failures are forgotten, the success is
    /// counted and the circuit closes.
    pub fn record_success(&mut self)
        requires
            old(self).success_count < u32::MAX,
        ensures
            final(self).failure_count == 0,
            final(self).success_count == old(self).success_count + 1,
            final(self).state == CircuitState::Closed,
            final(self).trial_in_flight == old(self).trial_in_flight,
            final(self).threshold() == old(self).threshold(),
            final(self).timeout() == old(self).timeout(),
    {
        self.failure_count = 0;
        self.success_count = self.success_count + 1;
        self.state = CircuitState::Closed;
    }

    /// Records a failed call. The circuit opens when the consecutive
    /// failures reach the threshold; the result says whether it did, in
    /// which case the caller starts the reset timer.
    pub fn record_failure(&mut self) -> (opened: bool)
        requires
            old(self).failure_count < u32::MAX,
        ensures
            final(self).failure_count == old(self).failure_count + 1,
            opened == (final(self).failure_count >= old(self).threshold()),
            (final(self).state, final(self).failure_count as nat) == after_failure(
                old(self).state,
                old(self).failure_count as nat,
                old(self).threshold() as nat,
            ),
            final(self).state == (if opened {
                CircuitState::Open
            } else {
                old(self).state
            }),
            final(self).success_count == old(self).success_count,
            final(self).trial_in_flight == old(self).trial_in_flight,
            final(self).threshold() == old(self).threshold(),
            final(self).timeout() == old(self).timeout(),
    {
        let count = self.failure_count + 1;
        self.failure_count = count;
        if count >= self.config.failure_threshold {
            self.state = CircuitState::Open;
            true
        } else {
            false
        }
    }

    /// The reset timer fired: the circuit lets one trial request through.
    pub fn reset_timeout_elapsed(&mut self)
        ensures
            final(self).state == CircuitState::HalfOpen,
            !final(self).trial_in_flight,
            final(self).failure_count == old(self).failure_count,
            final(self).success_count == old(self).success_count,
            final(self).threshold() == old(self).threshold(),
            final(self).timeout() == old(self).timeout(),
    {
        self.state = CircuitState::HalfOpen;
        self.trial_in_flight = false;
    }

    /// Settles a call that was let through with its outcome: a success is
    /// passed through, a failure is wrapped. The flag says whether the
    /// circuit opened (and the reset timer must be started). Any trial
    /// request is over.
    pub fn settle<T, E>(&mut self, outcome: Result<T, E>) -> (r: (Result<T, CircuitError<E>>, bool))
        requires
            outcome is Ok ==> old(self).success_count < u32::MAX,
            outcome is Err ==> old(self).failure_count < u32::MAX,
        ensures
            !final(self).trial_in_flight,
            match outcome {
                Ok(v) => r.0 == Ok::<T, CircuitError<E>>(v) && !r.1 && final(self).failure_count == 0
                    && final(self).success_count == old(self).success_count + 1
                    && final(self).state == CircuitState::Closed,
                Err(e) => r.0 matches Err(CircuitError::Failed(f)) && f == e
                    && final(self).failure_count == old(self).failure_count + 1
                    && final(self).success_count == old(self).success_count
                    && r.1 == (old(self).failure_count + 1 >= old(self).threshold())
                    && final(self).state == (if r.1 {
                    CircuitState::Open
                } else {
                    old(self).state
                }),
            },
            final(self).threshold() == old(self).threshold(),
            final(self).timeout() == old(self).timeout(),
    {
        match outcome {
            Ok(v) => {
                self.record_success();
                self.trial_in_flight = false;
                (Ok(v), false)
            },
            Err(e) => {
                let opened = self.record_failure();
                self.trial_in_flight = false;
                (Err(CircuitError::Failed(e)), opened)
            },
        }
    }

    /// Resets the breaker to its initial state: closed, with no failures,
    /// no successes and no trial under way.
    pub fn reset(&mut self)
        ensures
            final(self).state == CircuitState::Closed,
            final(self).failure_count == 0,
            final(self).success_count == 0,
            !final(self).trial_in_flight,
            final(self).threshold() == old(self).threshold(),
            final(self).timeout() == old(self).timeout(),
    {
        self.state = CircuitState::Closed;
        self.failure_count = 0;
        self.success_count = 0;
        self.trial_in_flight = false;
    }
}

/// State and failure count after one more failure, with `threshold`.
pub open spec fn after_failure(state: CircuitState, failures: nat, threshold: nat) -> (CircuitState, nat) {
    if failures + 1 >= threshold {
        (CircuitState::Open, failures + 1)
    } else {
        (state, failures + 1)
    }
}

/// State and failure count after `n` more failures in a row.
pub open spec fn after_failures(state: CircuitState, failures: nat, threshold: nat, n: nat) -> (
    CircuitState,
    nat,
)
    decreases n,
{
    if n == 0 {
        (state, failures)
    } else {
        let prev = after_failures(state, failures, threshold, (n - 1) as nat);
        after_failure(prev.0, prev.1, threshold)
    }
}

/// From a fresh (closed, no failures) breaker with a positive threshold,
/// fewer failures in a row than the threshold keep the circuit closed, and
/// the failure that reaches the threshold opens it.
pub proof fn law_opens_at_threshold(threshold: nat, n: nat)
    requires
        threshold > 0,
        n <= threshold,
    ensures
        n < threshold ==> after_failures(CircuitState::Closed, 0, threshold, n) == (
            CircuitState::Closed,
            n,
        ),
        n == threshold ==> after_failures(CircuitState::Closed, 0, threshold, n) == (
            CircuitState::Open,
            threshold,
        ),
    decreases n,
{
    if n > 0 {
        law_opens_at_threshold(threshold, (n - 1) as nat);
    }
}

impl<E: std::fmt::Debug> CircuitError<E> {
    /// The message: "circuit breaker is open", or "request failed: "
    /// followed by the error's `Debug` rendering.
    pub fn to_string(&self) -> (s: String)
        ensures
            self is Open ==> s@ == "circuit breaker is open"@,
            self is Failed ==> s@.len() >= 16 && s@.subrange(0, 16) == "request failed: "@,
    {
        match self {
            CircuitError::Open => String::from_str("circuit breaker is open"),
            CircuitError::Failed(e) => {
                let mut s = String::from_str("request failed: ");
                proof {
                    reveal_strlit("request failed: ");
                }
                let d = debug_text(e);
                s.append(d.as_str());
                assert(s@.subrange(0, 16) =~= "request failed: "@);
                s
            },
        }
    }
}

/// The start of the message of a retry failure after `attempts` attempts.
pub open spec fn retry_message_head(attempts: u32) -> Seq<char> {
    "all "@ + decimal(attempts as nat) + " retry attempts failed: "@
}

/// Error returned when every retry attempt failed.
pub struct RetryError<E> {
    pub attempts: u32,
    pub last_error: E,
}

impl<E: std::fmt::Debug> RetryError<E> {
    /// The message: "all N retry attempts failed: " followed by the last
    /// error's `Debug` rendering.
    pub fn to_string(&self) -> (s: String)
        ensures
            s@.len() >= retry_message_head(self.attempts).len(),
            s@.subrange(0, retry_message_head(self.attempts).len() as int) == retry_message_head(
                self.attempts,
            ),
    {
        proof {
            reveal_strlit("all ");
            reveal_strlit(" retry attempts failed: ");
        }
        let mut s = String::from_str("all ");
        push_decimal(&mut s, self.attempts as u64);
        s.append(" retry attempts failed: ");
        let ghost head = s@;
        let d = debug_text(&self.last_error);
        s.append(d.as_str());
        assert(s@.subrange(0, head.len() as int) =~= head);
        assert(head =~= "all "@ + decimal(self.attempts as nat) + " retry attempts failed: "@);
        s
    }
}

/// A timeout occurred.
#[derive(Debug)]
pub struct TimeoutError {
    pub ms: u32,
}

impl TimeoutError {
    /// The message: "operation timed out after Nms".
    pub fn to_string(&self) -> (s: String)
        ensures
            s@ == "operation timed out after "@ + decimal(self.ms as nat) + "ms"@,
    {
        let mut s = String::from_str("operation timed out after ");
        push_decimal(&mut s, self.ms as u64);
        s.append("ms");
        s
    }
}

/// Where a retry loop stands after an attempt failed.
#[derive(Clone, Copy, PartialEq, Eq, Debug)]
pub enum RetryStep {
    /// Wait, then make another attempt.
    Wait,
    /// No attempt is left: report the failure.
    GiveUp,
}

/// After attempt number `attempt` (counted from 0) of `max_attempts`
/// failed: wait and retry while an attempt is left.
pub fn after_failed_attempt(attempt: u32, max_attempts: u32) -> (step: RetryStep)
    requires
        attempt < max_attempts,
    ensures
        step == (if attempt + 1 < max_attempts {
            RetryStep::Wait
        } else {
            RetryStep::GiveUp
        }),
{
    if attempt < max_attempts - 1 {
        RetryStep::Wait
    } else {
        RetryStep::GiveUp
    }
}

/// The error reported when all `max_attempts` attempts failed, the last one
/// with `last_error`.
pub fn exhausted<E>(max_attempts: u32, last_error: E) -> (r: RetryError<E>)
    ensures
        r.attempts == max_attempts,
        r.last_error == last_error,
{
    RetryError { attempts: max_attempts, last_error }
}

} // verus!
