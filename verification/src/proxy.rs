//! The proxy arm's decisions: how one upstream attempt ended, whether to
//! retry it, and the access-log facts the retry loop leaves behind. The
//! endpoint pick, the connection, the budgets and the back-off sleep are
//! driven from outside; each of their results is fed in here.

use crate::hcm::{
    is_http_date, standard_headers, synth_no_healthy_upstream, synth_overflow, synth_status,
    NO_HEALTHY_UPSTREAM_BODY, OVERFLOW_BODY,
};
use crate::response::Response;
use crate::routing::is_local_reply;
use crate::text::{bytes_of, decimal_string, lemma_decimal_text_bytes};
use vstd::prelude::*;

verus! {

/// How one upstream attempt ended, for the retry policy.
#[derive(Debug, Clone, Copy, PartialEq, Eq, Structural)]
pub enum AttemptOutcome {
    /// A complete upstream response arrived.
    Response,
    /// Connecting to the picked endpoint failed.
    ConnectFailure,
    /// The request or the response broke off mid-way.
    Reset,
}

/// Why an attempt produced no upstream response.
#[derive(Debug, Clone, Copy, PartialEq, Eq, Structural)]
pub enum AttemptFailure {
    /// The cluster had no healthy endpoint to pick.
    NoEndpoint,
    /// Connecting to the picked endpoint failed.
    ConnectFailed,
    /// The connection pool, or its queue of pending requests, is full.
    Overflow,
    /// Sending the request or reading the response failed.
    SendFailed,
}

/// The retry classification of a failed attempt: a connect failure or a
/// reset may be retried; no endpoint and overflow end the request.
pub open spec fn failure_outcome(f: AttemptFailure) -> Option<AttemptOutcome> {
    match f {
        AttemptFailure::NoEndpoint | AttemptFailure::Overflow => None,
        AttemptFailure::ConnectFailed => Some(AttemptOutcome::ConnectFailure),
        AttemptFailure::SendFailed => Some(AttemptOutcome::Reset),
    }
}

/// The local reply for a failed attempt and its retry classification:
/// no endpoint gets the `no healthy upstream` 503, overflow the overflow
/// 503 (with `x-envoy-overloaded: true`), a connect or send failure an
/// empty 503.
pub fn failed_attempt(f: AttemptFailure, close: bool) -> (r: (Response, Option<AttemptOutcome>))
    ensures
        r.1 == failure_outcome(f),
        match f {
            AttemptFailure::NoEndpoint => is_local_reply(r.0, 503, bytes_of(NO_HEALTHY_UPSTREAM_BODY@), close),
            AttemptFailure::Overflow => {
                &&& r.0.status == 503
                &&& r.0.reason is None
                &&& r.0.body@ == bytes_of(OVERFLOW_BODY@)
                &&& r.0.header_rows().len() == 6
                &&& is_http_date(r.0.header_rows()[1].1)
                &&& r.0.header_rows() == standard_headers(r.0.body@.len(), close, r.0.header_rows()[1].1).push(
                    ("x-envoy-overloaded"@, "true"@),
                )
            },
            _ => is_local_reply(r.0, 503, Seq::empty(), close),
        },
{
    match f {
        AttemptFailure::NoEndpoint => (synth_no_healthy_upstream(close), None),
        AttemptFailure::Overflow => (synth_overflow(close), None),
        AttemptFailure::ConnectFailed => {
            let resp = synth_status(503, close);
            assert(resp.body@ =~= Seq::<u8>::empty());
            (resp, Some(AttemptOutcome::ConnectFailure))
        },
        AttemptFailure::SendFailed => {
            let resp = synth_status(503, close);
            assert(resp.body@ =~= Seq::<u8>::empty());
            (resp, Some(AttemptOutcome::Reset))
        },
    }
}

/// The `%RESPONSE_CODE_DETAILS%` an attempt leaves: `no_healthy_upstream`
/// without an endpoint; with one, the overflow reset for an attempt with no
/// retry classification (only overflow has none), else `via_upstream`.
pub open spec fn attempt_details(has_endpoint: bool, outcome: Option<AttemptOutcome>) -> Seq<char> {
    if !has_endpoint {
        "no_healthy_upstream"@
    } else if outcome is None {
        "upstream_reset_before_response_started{overflow}"@
    } else {
        "via_upstream"@
    }
}

/// Where the retry loop stands.
#[derive(Debug, Clone, Copy, PartialEq, Eq, Structural)]
pub enum RetryPhase {
    /// An attempt is to be made.
    Attempt,
    /// A retry is wanted; the retry budget decides.
    Budget,
    /// The last attempt's response is final.
    Done,
}

/// The retry budget's answer to a wanted retry.
#[derive(Debug, Clone, Copy, PartialEq, Eq, Structural)]
pub enum BudgetAnswer {
    /// No budget is configured.
    Unlimited,
    /// A budget slot was taken for the retry.
    Acquired,
    /// The budget is exhausted.
    Rejected,
}

/// The retry loop of one proxied request. It makes at most
/// `max_retries + 1` attempts.
#[derive(Debug)]
pub struct RetryLoop {
    pub max_retries: u32,
    /// Attempts made so far.
    pub attempts: u64,
    pub phase: RetryPhase,
    /// Whether the latest attempt was retriable.
    pub final_retriable: bool,
    /// The latest attempt's retry classification.
    pub final_outcome: Option<AttemptOutcome>,
    /// Whether the loop ended on an exhausted retry budget.
    pub budget_blocked: bool,
    /// The `%RESPONSE_CODE_DETAILS%` of the latest attempt.
    pub details: Option<&'static str>,
}

/// What the retry loop leaves behind once done.
#[derive(Debug, Clone, Copy, PartialEq, Eq)]
pub struct RetrySummary {
    /// Retries fired and the last attempt was still retriable
    /// (`upstream_rq_retry_limit_exceeded`; `%RESPONSE_FLAGS%` `URX`).
    pub limit_exceeded: bool,
    /// Retries fired and the last attempt was not retriable
    /// (`upstream_rq_retry_success`).
    pub retry_success: bool,
    /// The last attempt failed to connect (`%RESPONSE_FLAGS%` `UF`).
    pub connect_failure: bool,
    /// The request's `%RESPONSE_CODE_DETAILS%`.
    pub details: Option<&'static str>,
}

impl RetryLoop {
    /// The loop's invariant: attempts stay within `max_retries + 1`, and
    /// another attempt is only ever due while fewer than `max_retries + 1`
    /// were made.
    pub open spec fn within_budget(&self) -> bool {
        &&& self.attempts <= self.max_retries as int + 1
        &&& self.phase == RetryPhase::Attempt ==> self.attempts <= self.max_retries
        &&& self.phase == RetryPhase::Budget ==> 1 <= self.attempts <= self.max_retries
    }

    /// A loop for a route allowing `max_retries` retries (0 without a retry
    /// policy: exactly one attempt).
    pub fn new(max_retries: u32) -> (r: Self)
        ensures
            r.max_retries == max_retries,
            r.attempts == 0,
            r.phase == RetryPhase::Attempt,
            !r.budget_blocked,
            r.final_outcome is None,
            !r.final_retriable,
            r.details is None,
            r.within_budget(),
    {
        RetryLoop {
            max_retries,
            attempts: 0,
            phase: RetryPhase::Attempt,
            final_retriable: false,
            final_outcome: None,
            budget_blocked: false,
            details: None,
        }
    }

    /// Record an attempt: whether it reached an endpoint, its retry
    /// classification, and whether the retry policy deems it retriable. A
    /// retry is wanted when the attempt is classified and retriable and
    /// fewer than `max_retries + 1` attempts were made; the budget is then
    /// asked (`phase` becomes `Budget`), else the loop is done.
    pub fn on_attempt(&mut self, has_endpoint: bool, outcome: Option<AttemptOutcome>, retriable: bool)
        requires
            old(self).phase == RetryPhase::Attempt,
            old(self).within_budget(),
        ensures
            final(self).within_budget(),
            final(self).max_retries == old(self).max_retries,
            final(self).attempts == old(self).attempts + 1,
            final(self).final_outcome == outcome,
            final(self).final_retriable == (outcome is Some && retriable),
            final(self).budget_blocked == old(self).budget_blocked,
            final(self).details matches Some(d) && d@ == attempt_details(has_endpoint, outcome),
            final(self).phase == if final(self).final_retriable && final(self).attempts <= final(self).max_retries {
                RetryPhase::Budget
            } else {
                RetryPhase::Done
            },
    {
        self.attempts = self.attempts + 1;
        self.details = Some(
            if !has_endpoint {
                "no_healthy_upstream"
            } else if outcome.is_none() {
                "upstream_reset_before_response_started{overflow}"
            } else {
                "via_upstream"
            },
        );
        self.final_outcome = outcome;
        self.final_retriable = outcome.is_some() && retriable;
        if self.final_retriable && self.attempts <= self.max_retries as u64 {
            self.phase = RetryPhase::Budget;
        } else {
            self.phase = RetryPhase::Done;
        }
    }

    /// Record the budget's answer to a wanted retry: with a slot (or no
    /// budget at all) the retry fires (`phase` back to `Attempt`; the caller
    /// counts it and backs off); an exhausted budget ends the loop with the
    /// current response.
    pub fn on_budget(&mut self, answer: BudgetAnswer) -> (retry: bool)
        requires
            old(self).phase == RetryPhase::Budget,
            old(self).within_budget(),
        ensures
            final(self).within_budget(),
            retry == (answer != BudgetAnswer::Rejected),
            final(self).phase == if retry { RetryPhase::Attempt } else { RetryPhase::Done },
            final(self).budget_blocked == (old(self).budget_blocked || !retry),
            final(self).max_retries == old(self).max_retries,
            final(self).attempts == old(self).attempts,
            final(self).final_outcome == old(self).final_outcome,
            final(self).final_retriable == old(self).final_retriable,
            final(self).details == old(self).details,
    {
        match answer {
            BudgetAnswer::Rejected => {
                self.budget_blocked = true;
                self.phase = RetryPhase::Done;
                false
            },
            _ => {
                self.phase = RetryPhase::Attempt;
                true
            },
        }
    }

    /// The loop's summary. The retry split applies only when retries fired
    /// and the budget did not end the loop; a final reset that is not a
    /// retry-limit exit reports the connection-termination reset detail.
    pub fn summary(&self) -> (r: RetrySummary)
        ensures
            r.limit_exceeded == (self.attempts > 1 && !self.budget_blocked && self.final_retriable),
            r.retry_success == (self.attempts > 1 && !self.budget_blocked && !self.final_retriable),
            r.connect_failure == (self.final_outcome == Some(AttemptOutcome::ConnectFailure)),
            if self.final_outcome == Some(AttemptOutcome::Reset) && !r.limit_exceeded {
                r.details matches Some(d) && d@ == "upstream_reset_before_response_started{connection_termination}"@
            } else {
                r.details == self.details
            },
    {
        let split = self.attempts > 1 && !self.budget_blocked;
        let limit_exceeded = split && self.final_retriable;
        let retry_success = split && !self.final_retriable;
        let connect_failure = match self.final_outcome {
            Some(AttemptOutcome::ConnectFailure) => true,
            _ => false,
        };
        let reset = match self.final_outcome {
            Some(AttemptOutcome::Reset) => true,
            _ => false,
        };
        let details = if reset && !limit_exceeded {
            Some("upstream_reset_before_response_started{connection_termination}")
        } else {
            self.details
        };
        RetrySummary { limit_exceeded, retry_success, connect_failure, details }
    }
}

/// The `x-envoy-attempt-count` row carrying the number of attempts.
pub fn attempt_count_row(attempts: u64) -> (r: (String, String))
    ensures
        r.0@ == "x-envoy-attempt-count"@,
        bytes_of(r.1@) == crate::text::decimal(attempts as nat),
{
    let value = decimal_string(attempts as u128);
    proof {
        lemma_decimal_text_bytes(attempts as nat);
    }
    ("x-envoy-attempt-count".to_owned(), value)
}

/// Whether a completing response ticks `upstream_rq_5xx`: only a real
/// upstream response with a 5xx status.
pub fn ticks_upstream_5xx(completing_upstream_response: bool, status: u16) -> (r: bool)
    ensures
        r == (completing_upstream_response && 500 <= status < 600),
{
    completing_upstream_response && status / 100 == 5
}

/// The reply after the retry loop: with the virtual host's attempt-count
/// flag set, an `x-envoy-attempt-count` row with the number of attempts is
/// appended (to proxied responses and local replies alike).
pub fn add_attempt_count(resp: &mut Response, attempts: u64, include_attempt_count_in_response: bool)
    ensures
        final(resp).status == old(resp).status,
        final(resp).reason == old(resp).reason,
        final(resp).body@ == old(resp).body@,
        !include_attempt_count_in_response ==> final(resp).header_rows() == old(resp).header_rows(),
        include_attempt_count_in_response ==> {
            &&& final(resp).header_rows().len() == old(resp).header_rows().len() + 1
            &&& final(resp).header_rows().drop_last() == old(resp).header_rows()
            &&& final(resp).header_rows().last().0 == "x-envoy-attempt-count"@
            &&& bytes_of(final(resp).header_rows().last().1) == crate::text::decimal(attempts as nat)
        },
{
    if include_attempt_count_in_response {
        let ghost before = resp.header_rows();
        let row = attempt_count_row(attempts);
        let ghost r = (row.0@, row.1@);
        resp.headers.push(row);
        proof {
            assert(resp.header_rows() =~= before.push(r));
        }
    }
}

/// The reply when the request budget of the cluster is exhausted before any
/// attempt: the overflow 503, tagged with the overflow reset detail, with
/// an attempt count of 1 when the virtual host asks for it.
pub fn request_budget_overflow(close: bool, include_attempt_count_in_response: bool) -> (r: (Response, &'static str))
    ensures
        r.0.status == 503,
        r.0.body@ == bytes_of(OVERFLOW_BODY@),
        r.1@ == "upstream_reset_before_response_started{overflow}"@,
        r.0.header_rows().len() == if include_attempt_count_in_response { 7int } else { 6int },
        r.0.header_rows()[5] == ("x-envoy-overloaded"@, "true"@),
        include_attempt_count_in_response ==> r.0.header_rows()[6].0 == "x-envoy-attempt-count"@ && bytes_of(
            r.0.header_rows()[6].1,
        ) == crate::text::decimal(1),
{
    let mut resp = synth_overflow(close);
    add_attempt_count(&mut resp, 1, include_attempt_count_in_response);
    proof {
        if include_attempt_count_in_response {
            assert(resp.header_rows()[5] == resp.header_rows().drop_last()[5]);
        }
    }
    (resp, "upstream_reset_before_response_started{overflow}")
}

} // verus!
