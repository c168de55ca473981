//! Retries of reads and of atomic batches.

use vstd::arithmetic::power2::{lemma2_to64, lemma_pow2_pos, lemma_pow2_unfold, pow2};
use vstd::prelude::*;

use crate::batch_kind::DuckLakeTableBatchKind;
use crate::error::{ErrorKind, ErrorView, EtlError};
use crate::replay::TableStreamingProgress;
use crate::schema::{table_id, DuckLakeTableName, TableNameView};

verus! {

/// Maximum number of times a failed attempt is retried.
pub const MAX_COMMIT_RETRIES: u32 = 10;

/// Delay before the first retry, in milliseconds.
pub const INITIAL_RETRY_DELAY_MS: u64 = 50;

/// Upper bound on the backoff, in milliseconds.
pub const MAX_RETRY_DELAY_MS: u64 = 2_000;

/// Least upper bound that outlasts transient delete-file visibility failures, in
/// milliseconds.
pub const TRANSIENT_DELETE_FILE_RETRY_DELAY_MS: u64 = 5_000;

/// How often and how patiently failed attempts are retried.
#[derive(Clone, Copy, Debug, PartialEq, Eq, Structural)]
pub struct RetryPolicy {
    pub max_retries: u32,
    pub initial_delay_ms: u64,
    pub max_delay_ms: u64,
}

/// The policy of recovery reads and of batch commits.
pub open spec fn commit_policy() -> RetryPolicy {
    RetryPolicy { max_retries: 10, initial_delay_ms: 50, max_delay_ms: 5_000 }
}

/// Returns the policy of recovery reads and of batch commits.
pub fn commit_retry_policy() -> (r: RetryPolicy)
    ensures
        r == commit_policy(),
{
    let max_delay_ms: u64 = if MAX_RETRY_DELAY_MS > TRANSIENT_DELETE_FILE_RETRY_DELAY_MS {
        MAX_RETRY_DELAY_MS
    } else {
        TRANSIENT_DELETE_FILE_RETRY_DELAY_MS
    };
    RetryPolicy {
        max_retries: MAX_COMMIT_RETRIES,
        initial_delay_ms: INITIAL_RETRY_DELAY_MS,
        max_delay_ms,
    }
}

/// Whether a failure may be retried.
#[derive(Clone, Copy, Debug, PartialEq, Eq, Structural)]
pub enum RetryDecision {
    Retry,
    Stop,
}

/// Whether an error reports that the destination is shutting down.
pub open spec fn is_shutdown(error: ErrorView) -> bool {
    &&& error.kind == ErrorKind::DestinationConnectionFailed
    &&& error.description == "DuckLake shutdown requested"@
}

/// Returns whether an error reports that the destination is shutting down.
pub fn is_ducklake_shutdown_requested_error(error: &EtlError) -> (r: bool)
    ensures
        r == is_shutdown(error@),
{
    let description = "DuckLake shutdown requested".to_owned();
    error.kind == ErrorKind::DestinationConnectionFailed && error.description == description
}

/// Whether a failure may be retried: every one but a shutdown.
pub open spec fn retry_decision(error: ErrorView) -> RetryDecision {
    if is_shutdown(error) {
        RetryDecision::Stop
    } else {
        RetryDecision::Retry
    }
}

/// Decides whether a failure may be retried.
pub fn ducklake_retry_decision(error: &EtlError) -> (r: RetryDecision)
    ensures
        r == retry_decision(error@),
{
    if is_ducklake_shutdown_requested_error(error) {
        RetryDecision::Stop
    } else {
        RetryDecision::Retry
    }
}

/// A delay that is kept within a policy's bound.
pub open spec fn bounded_delay(policy: RetryPolicy, delay_ms: nat) -> nat {
    if delay_ms > policy.max_delay_ms {
        policy.max_delay_ms as nat
    } else {
        delay_ms
    }
}

/// The delay before the retry that follows `retries` earlier ones: it doubles
/// with each of them, up to the policy's bound.
pub open spec fn backoff(policy: RetryPolicy, retries: nat) -> nat
    decreases retries,
{
    if retries == 0 {
        bounded_delay(policy, policy.initial_delay_ms as nat)
    } else {
        bounded_delay(policy, 2 * backoff(policy, (retries - 1) as nat))
    }
}

/// What follows a failed attempt.
#[derive(Clone, Copy, Debug, PartialEq, Eq, Structural)]
pub enum RetryStep {
    /// Attempt again after that delay, before jitter.
    Retry { retry_index: u32, delay_ms: u64 },
    /// Report the failure.
    GiveUp,
}

/// What follows a failed attempt once so many retries were granted.
pub open spec fn retry_step(policy: RetryPolicy, retries: u32, error: ErrorView) -> RetryStep {
    if retry_decision(error) is Stop || retries >= policy.max_retries {
        RetryStep::GiveUp
    } else {
        RetryStep::Retry {
            retry_index: (retries + 1) as u32,
            delay_ms: backoff(policy, retries as nat) as u64,
        }
    }
}

/// The attempts of one operation.
#[derive(Clone, Copy, Debug, PartialEq, Eq, Structural)]
pub struct RetryLoop {
    policy: RetryPolicy,
    retries: u32,
    delay_ms: u64,
}

impl RetryLoop {
    /// The policy in force.
    pub closed spec fn policy(&self) -> RetryPolicy {
        self.policy
    }

    /// How many retries were granted.
    pub closed spec fn retries(&self) -> u32 {
        self.retries
    }

    /// The next delay is the policy's, and no more retries were granted than
    /// the policy allows.
    pub closed spec fn wf(&self) -> bool {
        &&& self.retries <= self.policy.max_retries
        &&& self.delay_ms == backoff(self.policy, self.retries as nat)
    }

    /// Starts with no retry granted.
    pub fn new(policy: RetryPolicy) -> (r: RetryLoop)
        ensures
            r.wf(),
            r.policy() == policy,
            r.retries() == 0,
    {
        let delay_ms: u64 = if policy.initial_delay_ms > policy.max_delay_ms {
            policy.max_delay_ms
        } else {
            policy.initial_delay_ms
        };
        RetryLoop { policy, retries: 0, delay_ms }
    }

    /// Returns whether the first attempt is still under way.
    pub fn is_first_attempt(&self) -> (r: bool)
        ensures
            r == (self.retries() == 0),
    {
        self.retries == 0
    }

    /// Takes in that an attempt failed.
    pub fn failed(&mut self, error: &EtlError) -> (r: RetryStep)
        requires
            old(self).wf(),
        ensures
            final(self).wf(),
            final(self).policy() == old(self).policy(),
            r == retry_step(old(self).policy(), old(self).retries(), error@),
            final(self).retries() <= old(self).policy().max_retries,
            if retry_decision(error@) == RetryDecision::Stop || old(self).retries()
                >= old(self).policy().max_retries {
                &&& r == RetryStep::GiveUp
                &&& final(self).retries() == old(self).retries()
            } else {
                &&& final(self).retries() == old(self).retries() + 1
                &&& r matches RetryStep::Retry { retry_index, delay_ms } && retry_index
                    == old(self).retries() + 1 && delay_ms == backoff(
                    old(self).policy(),
                    old(self).retries() as nat,
                )
            },
    {
        match ducklake_retry_decision(error) {
            RetryDecision::Stop => RetryStep::GiveUp,
            RetryDecision::Retry => {
                if self.retries >= self.policy.max_retries {
                    return RetryStep::GiveUp;
                }
                let delay_ms: u64 = self.delay_ms;
                let limit: u64 = self.policy.max_delay_ms;
                self.retries = self.retries + 1;
                self.delay_ms = if delay_ms > limit / 2 {
                    limit
                } else {
                    delay_ms * 2
                };
                proof {
                    lemma_backoff_bounds(self.policy, (self.retries - 1) as nat);
                    lemma_backoff_bounds(self.policy, old(self).retries as nat);
                }
                RetryStep::Retry { retry_index: self.retries, delay_ms }
            },
        }
    }
}

proof fn lemma_backoff_bounds(policy: RetryPolicy, retries: nat)
    ensures
        backoff(policy, retries) <= policy.max_delay_ms,
    decreases retries,
{
    if retries > 0 {
        lemma_backoff_bounds(policy, (retries - 1) as nat);
    }
}

/// The delays between attempts never shrink and stay within the policy's bound.
pub proof fn law_backoff_grows_within_its_bound(policy: RetryPolicy, earlier: nat, later: nat)
    requires
        earlier <= later,
    ensures
        backoff(policy, earlier) <= backoff(policy, later) <= policy.max_delay_ms,
    decreases later,
{
    lemma_backoff_bounds(policy, later);
    if earlier < later {
        law_backoff_grows_within_its_bound(policy, earlier, (later - 1) as nat);
        lemma_backoff_bounds(policy, (later - 1) as nat);
    }
}

/// The progress an attempt may rely on without reading it: what is known before
/// the first attempt. A failed attempt may have committed, so every retry reads
/// durable progress.
pub open spec fn attempt_progress(
    known: Option<TableStreamingProgress>,
    retries: nat,
) -> Option<TableStreamingProgress> {
    if retries == 0 {
        known
    } else {
        None
    }
}

/// Returns the progress an attempt may rely on without reading it.
pub fn progress_for_attempt(
    retry: &RetryLoop,
    known: Option<TableStreamingProgress>,
) -> (r: Option<TableStreamingProgress>)
    ensures
        r == attempt_progress(known, retry.retries() as nat),
{
    if retry.is_first_attempt() {
        known
    } else {
        None
    }
}

/// The error of a batch whose retries are used up. A shutdown is reported as it
/// is.
pub open spec fn exhausted(
    table: TableNameView,
    batch_id: Seq<char>,
    kind: DuckLakeTableBatchKind,
    error: ErrorView,
) -> ErrorView {
    if is_shutdown(error) {
        error
    } else {
        ErrorView {
            kind: ErrorKind::DestinationAtomicBatchRetryable,
            description: "DuckLake atomic table batch failed after retries"@,
            detail: Some(
                "table="@ + table_id(table) + ", batch_id="@ + batch_id + ", batch_kind="@
                    + kind.label(),
            ),
            driver: None,
            cause: Some(Box::new(error)),
        }
    }
}

/// Reports a batch whose retries are used up.
pub fn exhausted_batch_error(
    table_name: &DuckLakeTableName,
    batch_id: &str,
    batch_kind: DuckLakeTableBatchKind,
    error: EtlError,
) -> (r: EtlError)
    ensures
        r@ == exhausted(table_name@, batch_id@, batch_kind, error@),
{
    if is_ducklake_shutdown_requested_error(&error) {
        return error;
    }
    let mut detail = "table=".to_owned();
    detail.append(table_name.id().as_str());
    detail.append(", batch_id=");
    detail.append(batch_id);
    detail.append(", batch_kind=");
    detail.append(batch_kind.as_str());
    EtlError {
        kind: ErrorKind::DestinationAtomicBatchRetryable,
        description: "DuckLake atomic table batch failed after retries".to_owned(),
        detail: Some(detail),
        driver: None,
        cause: Some(Box::new(error)),
    }
}

/// The delay before a retry is the initial one doubled once for every earlier retry,
/// or the policy's bound where that is more.
pub proof fn law_backoff_doubles_up_to_its_bound(policy: RetryPolicy, retries: nat)
    ensures
        backoff(policy, retries) == (if policy.initial_delay_ms * pow2(retries)
            <= policy.max_delay_ms {
            policy.initial_delay_ms * pow2(retries)
        } else {
            policy.max_delay_ms as int
        }),
    decreases retries,
{
    lemma_pow2_pos(retries);
    if retries == 0 {
        lemma2_to64();
    } else {
        let fewer = (retries - 1) as nat;
        law_backoff_doubles_up_to_its_bound(policy, fewer);
        lemma_pow2_unfold(retries);
        let initial = policy.initial_delay_ms as int;
        let power = pow2(fewer) as int;
        assert(initial * (2 * power) == 2 * (initial * power)) by (nonlinear_arith);
        assert(0 <= initial * power) by (nonlinear_arith)
            requires
                0 <= initial,
                0 <= power,
        ;
    }
}

/// Every failure is retried but for a shutdown, which is the error of that kind with
/// that description. A shutdown is reported as it is and every other failure as the
/// cause of one that the caller may retry.
pub proof fn law_failures_but_shutdowns_are_retried(
    table: DuckLakeTableName,
    batch_id: Seq<char>,
    kind: DuckLakeTableBatchKind,
    error: EtlError,
)
    ensures
        ({
            let shutdown = error.kind is DestinationConnectionFailed && error.description@
                == "DuckLake shutdown requested"@;
            let reported = exhausted(table@, batch_id, kind, error@);
            &&& retry_decision(error@) is Stop <==> shutdown
            &&& shutdown ==> reported == error@
            &&& !shutdown ==> {
                &&& reported.kind is DestinationAtomicBatchRetryable
                &&& reported.cause == Some(Box::new(error@))
                &&& reported.detail matches Some(detail) && detail == "table="@ + table.schema@
                    + "."@ + table.table@ + ", batch_id="@ + batch_id + ", batch_kind="@
                    + kind.label()
            }
        }),
{
    assert("table="@ + table_id(table@) =~= "table="@ + table.schema@ + "."@ + table.table@);
}

/// Only the first attempt relies on what was known before it: every retry reads progress
/// again.
pub proof fn law_retries_read_progress_again(known: Option<TableStreamingProgress>, retries: nat)
    ensures
        retries == 0 ==> attempt_progress(known, retries) == known,
        retries > 0 ==> attempt_progress(known, retries) is None,
{
}

/// A failure is retried as long as the policy has retries left and it is no shutdown, and
/// given up otherwise. The retries are numbered from one, and each waits the initial delay
/// doubled once for every earlier one, or the bound of the policy where that is more.
pub proof fn law_failures_are_retried_while_retries_are_left(
    policy: RetryPolicy,
    retries: u32,
    error: EtlError,
)
    ensures
        ({
            let shutdown = error.kind is DestinationConnectionFailed && error.description@
                == "DuckLake shutdown requested"@;
            match retry_step(policy, retries, error@) {
                RetryStep::GiveUp => shutdown || retries >= policy.max_retries,
                RetryStep::Retry { retry_index, delay_ms } => {
                    &&& !shutdown
                    &&& retries < policy.max_retries
                    &&& retry_index == retries + 1
                    &&& delay_ms == policy.max_delay_ms || delay_ms == policy.initial_delay_ms
                        * pow2(retries as nat)
                    &&& delay_ms <= policy.max_delay_ms
                    &&& delay_ms <= policy.initial_delay_ms * pow2(retries as nat)
                },
            }
        }),
{
    law_backoff_doubles_up_to_its_bound(policy, retries as nat);
    lemma_backoff_bounds(policy, retries as nat);
}

} // verus!
