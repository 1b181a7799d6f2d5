use envoy_http1::hcm::synth_status;
use envoy_http1::proxy::{
    add_attempt_count, attempt_count_row, failed_attempt, request_budget_overflow, ticks_upstream_5xx, AttemptFailure,
    AttemptOutcome, BudgetAnswer, RetryLoop, RetryPhase,
};

#[test]
fn failed_attempts_get_their_local_replies() {
    let (r, o) = failed_attempt(AttemptFailure::NoEndpoint, true);
    assert_eq!((r.status, o), (503, None));
    assert_eq!(r.body, b"no healthy upstream".to_vec());
    let (r, o) = failed_attempt(AttemptFailure::Overflow, false);
    assert_eq!((r.status, o), (503, None));
    assert_eq!(r.headers[5], ("x-envoy-overloaded".to_string(), "true".to_string()));
    let (r, o) = failed_attempt(AttemptFailure::ConnectFailed, false);
    assert_eq!((r.status, o), (503, Some(AttemptOutcome::ConnectFailure)));
    assert!(r.body.is_empty());
    let (r, o) = failed_attempt(AttemptFailure::SendFailed, false);
    assert_eq!((r.status, o), (503, Some(AttemptOutcome::Reset)));
    assert_eq!(r.headers.len(), 5);
}

#[test]
fn no_retry_policy_means_exactly_one_attempt() {
    let mut l = RetryLoop::new(0);
    l.on_attempt(true, Some(AttemptOutcome::Reset), true);
    assert_eq!(l.phase, RetryPhase::Done);
    assert_eq!(l.attempts, 1);
    let s = l.summary();
    assert!(!s.limit_exceeded && !s.retry_success && !s.connect_failure);
    assert_eq!(s.details, Some("upstream_reset_before_response_started{connection_termination}"));
}

#[test]
fn retries_stop_after_max_retries_plus_one_attempts() {
    let mut l = RetryLoop::new(2);
    let mut attempts = 0;
    loop {
        assert_eq!(l.phase, RetryPhase::Attempt);
        attempts += 1;
        l.on_attempt(true, Some(AttemptOutcome::Response), true);
        if l.phase != RetryPhase::Budget {
            break;
        }
        assert!(l.on_budget(BudgetAnswer::Unlimited));
    }
    assert_eq!(attempts, 3);
    assert_eq!(l.attempts, 3);
    let s = l.summary();
    assert!(s.limit_exceeded, "{s:?}");
    assert!(!s.retry_success);
    assert_eq!(s.details, Some("via_upstream"));
}

#[test]
fn a_retry_that_succeeds_counts_as_retry_success() {
    let mut l = RetryLoop::new(3);
    l.on_attempt(true, Some(AttemptOutcome::ConnectFailure), true);
    assert_eq!(l.phase, RetryPhase::Budget);
    assert!(l.on_budget(BudgetAnswer::Acquired));
    l.on_attempt(true, Some(AttemptOutcome::Response), false);
    assert_eq!(l.phase, RetryPhase::Done);
    let s = l.summary();
    assert!(s.retry_success && !s.limit_exceeded && !s.connect_failure, "{s:?}");
}

#[test]
fn an_exhausted_budget_ends_the_loop_without_the_split() {
    let mut l = RetryLoop::new(3);
    l.on_attempt(true, Some(AttemptOutcome::ConnectFailure), true);
    assert!(!l.on_budget(BudgetAnswer::Rejected));
    assert_eq!(l.phase, RetryPhase::Done);
    assert!(l.budget_blocked);
    let s = l.summary();
    assert!(!s.retry_success && !s.limit_exceeded);
    assert!(s.connect_failure);
    assert_eq!(s.details, Some("via_upstream"));
}

#[test]
fn attempt_details_follow_the_endpoint_and_classification() {
    let mut l = RetryLoop::new(0);
    l.on_attempt(false, None, false);
    assert_eq!(l.details, Some("no_healthy_upstream"));
    let mut l = RetryLoop::new(0);
    l.on_attempt(true, None, true);
    assert_eq!(l.details, Some("upstream_reset_before_response_started{overflow}"));
    assert_eq!(l.phase, RetryPhase::Done, "an unclassified attempt is never retried");
}

#[test]
fn attempt_count_and_5xx_accounting() {
    assert_eq!(attempt_count_row(3), ("x-envoy-attempt-count".to_string(), "3".to_string()));
    assert!(ticks_upstream_5xx(true, 503));
    assert!(!ticks_upstream_5xx(false, 503));
    assert!(!ticks_upstream_5xx(true, 404));
    assert!(!ticks_upstream_5xx(true, 600));
}

#[test]
fn attempt_count_row_is_added_only_on_request() {
    let mut r = synth_status(503, false);
    add_attempt_count(&mut r, 2, false);
    assert_eq!(r.headers.len(), 5);
    add_attempt_count(&mut r, 2, true);
    assert_eq!(r.headers.len(), 6);
    assert_eq!(r.headers[5], ("x-envoy-attempt-count".to_string(), "2".to_string()));
}

#[test]
fn an_exhausted_request_budget_answers_overflow() {
    let (r, details) = request_budget_overflow(true, true);
    assert_eq!(r.status, 503);
    assert_eq!(details, "upstream_reset_before_response_started{overflow}");
    assert_eq!(r.headers[5], ("x-envoy-overloaded".to_string(), "true".to_string()));
    assert_eq!(r.headers[6], ("x-envoy-attempt-count".to_string(), "1".to_string()));
    let (plain, _) = request_budget_overflow(false, false);
    assert_eq!(plain.headers.len(), 6);
}
