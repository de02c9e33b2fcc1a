//! What to do with the endpoint's answer: deliver, retry after a pause, or
//! give up.

use crate::handler::{FileHandler, HandlerModel, ReadError};
use crate::offset::Delta;
use vstd::arithmetic::power::lemma_pow0;
use vstd::arithmetic::power2::{lemma_pow2_strictly_increases, lemma_pow2_unfold, pow2};
use vstd::prelude::*;
use vstd::utf8::encode_utf8;

verus! {

/// How one attempt to send a request ended.
#[derive(Clone, Copy, Debug, PartialEq, Eq, Structural)]
pub enum SendResult {
    /// The endpoint answered with this HTTP status code.
    Answered(u16),
    /// No connection could be made, or it broke before the answer.
    Unreachable,
    /// No answer came in time.
    TimedOut,
    /// The request could not be put together, so nothing was sent.
    Unsendable,
}

/// What an attempt's end means for the bytes it carried.
#[derive(Clone, Copy, Debug, PartialEq, Eq, Structural)]
pub enum Outcome {
    /// The endpoint acknowledged the bytes.
    Success,
    /// The attempt failed for a reason that may pass: worth another try.
    Transient,
    /// The attempt failed for a reason that another try would meet again.
    Permanent,
}

/// The outcome that a status code stands for: 2xx is success and 5xx a
/// failure on the server's side that may pass. Every other code, the 4xx
/// rejections first among them, is final.
pub open spec fn status_outcome(code: u16) -> Outcome {
    if 200 <= code <= 299 {
        Outcome::Success
    } else if 500 <= code <= 599 {
        Outcome::Transient
    } else {
        Outcome::Permanent
    }
}

/// The outcome of an attempt: that of the status code where the endpoint
/// answered; transient where it was not reached or did not answer in time;
/// permanent where the request could not be put together.
pub open spec fn outcome_of(result: SendResult) -> Outcome {
    match result {
        SendResult::Answered(code) => status_outcome(code),
        SendResult::Unreachable => Outcome::Transient,
        SendResult::TimedOut => Outcome::Transient,
        SendResult::Unsendable => Outcome::Permanent,
    }
}

/// Classifies a status code by its class.
pub fn classify_status(code: u16) -> (outcome: Outcome)
    ensures
        outcome == status_outcome(code),
{
    if 200 <= code && code <= 299 {
        Outcome::Success
    } else if 500 <= code && code <= 599 {
        Outcome::Transient
    } else {
        Outcome::Permanent
    }
}

/// Classifies the end of an attempt.
pub fn classify(result: SendResult) -> (outcome: Outcome)
    ensures
        outcome == outcome_of(result),
{
    match result {
        SendResult::Answered(code) => classify_status(code),
        SendResult::Unreachable => Outcome::Transient,
        SendResult::TimedOut => Outcome::Transient,
        SendResult::Unsendable => Outcome::Permanent,
    }
}

/// The attempts that every policy allows for one range of bytes: a failure
/// that may pass is tried again, twice if need be, whatever the policy.
pub const MIN_ATTEMPTS: u32 = 3;

/// How often to try, and how long to pause between tries.
#[derive(Clone, Copy, Debug, PartialEq, Eq, Structural)]
pub struct RetryPolicy {
    /// The most attempts made for one range of bytes. Fewer than
    /// `MIN_ATTEMPTS` are never the limit: a smaller number means that many.
    pub max_attempts: u32,
    /// The pause after the first failed attempt, in milliseconds.
    pub base_delay_ms: u64,
    /// The longest pause, in milliseconds.
    pub max_delay_ms: u64,
}

/// The attempts made for one range of bytes unless told otherwise.
pub const DEFAULT_MAX_ATTEMPTS: u32 = 5;

/// The pause after the first failed attempt unless told otherwise: half a second.
pub const DEFAULT_BASE_DELAY_MS: u64 = 500;

/// The longest pause unless told otherwise: half a minute.
pub const DEFAULT_MAX_DELAY_MS: u64 = 30_000;

impl Default for RetryPolicy {
    /// Five attempts, with pauses of half a second, one, two and four seconds.
    fn default() -> (policy: Self)
        ensures
            policy == (RetryPolicy {
                max_attempts: DEFAULT_MAX_ATTEMPTS,
                base_delay_ms: DEFAULT_BASE_DELAY_MS,
                max_delay_ms: DEFAULT_MAX_DELAY_MS,
            }),
    {
        RetryPolicy {
            max_attempts: DEFAULT_MAX_ATTEMPTS,
            base_delay_ms: DEFAULT_BASE_DELAY_MS,
            max_delay_ms: DEFAULT_MAX_DELAY_MS,
        }
    }
}

/// The smaller of two numbers.
pub open spec fn least(a: nat, b: nat) -> nat {
    if a <= b {
        a
    } else {
        b
    }
}

/// The pause, in milliseconds, after `failures` failed attempts in a row:
/// the base delay, doubled for each failure after the first, and never more
/// than the longest pause.
pub open spec fn backoff(policy: RetryPolicy, failures: nat) -> nat {
    if failures == 0 {
        0
    } else {
        least(
            policy.base_delay_ms as nat * pow2((failures - 1) as nat),
            policy.max_delay_ms as nat,
        )
    }
}

impl RetryPolicy {
    /// The most attempts that are made: `max_attempts`, but no fewer than
    /// `MIN_ATTEMPTS`.
    pub open spec fn attempt_cap(self) -> nat {
        if self.max_attempts < MIN_ATTEMPTS {
            MIN_ATTEMPTS as nat
        } else {
            self.max_attempts as nat
        }
    }

    /// The most attempts that are made for one range of bytes.
    pub fn attempts_allowed(&self) -> (n: u32)
        ensures
            n == self.attempt_cap(),
            n >= MIN_ATTEMPTS,
    {
        if self.max_attempts < MIN_ATTEMPTS {
            MIN_ATTEMPTS
        } else {
            self.max_attempts
        }
    }

    /// The pause after `failures` failed attempts in a row.
    pub fn delay_after(&self, failures: u32) -> (ms: u64)
        ensures
            ms == backoff(*self, failures as nat),
    {
        if failures == 0 {
            return 0;
        }
        let cap = self.max_delay_ms;
        let base = self.base_delay_ms;
        if base == 0 {
            assert(0 * pow2((failures - 1) as nat) == 0);
            return 0;
        }
        proof {
            lemma_pow0(2);
            assert(pow2(0) == 1);
            assert(base as nat * pow2(0) == base);
        }
        let mut delay: u64 = if base <= cap {
            base
        } else {
            cap
        };
        let mut k: u32 = 1;
        while k < failures && delay < cap
            invariant
                1 <= k <= failures,
                base >= 1,
                cap == self.max_delay_ms,
                base == self.base_delay_ms,
                delay == least(base as nat * pow2((k - 1) as nat), cap as nat),
            decreases failures - k,
        {
            proof {
                lemma_pow2_unfold(k as nat);
                assert(base as nat * pow2(k as nat) == 2 * (base as nat * pow2((k - 1) as nat)))
                    by (nonlinear_arith)
                    requires
                        pow2(k as nat) == 2 * pow2((k - 1) as nat),
                ;
            }
            delay = if delay >= cap - delay {
                cap
            } else {
                delay + delay
            };
            k += 1;
        }
        proof {
            if k < failures {
                lemma_pow2_strictly_increases((k - 1) as nat, (failures - 1) as nat);
                assert(base as nat * pow2((k - 1) as nat) <= base as nat * pow2(
                    (failures - 1) as nat,
                )) by (nonlinear_arith)
                    requires
                        pow2((k - 1) as nat) <= pow2((failures - 1) as nat),
                ;
            }
        }
        delay
    }
}

/// The pauses are bounded and never shrink: none is longer than the longest
/// pause, each is at least as long as the one before, and until the bound is
/// met each is twice the one before.
pub proof fn lemma_backoff(policy: RetryPolicy, failures: nat)
    requires
        failures >= 1,
    ensures
        backoff(policy, failures) <= policy.max_delay_ms,
        backoff(policy, failures) <= backoff(policy, failures + 1),
        backoff(policy, failures + 1) == least(
            2 * backoff(policy, failures),
            policy.max_delay_ms as nat,
        ),
{
    let base = policy.base_delay_ms as nat;
    let before = pow2((failures - 1) as nat);
    lemma_pow2_unfold(failures);
    assert(base * pow2(failures) == 2 * (base * before)) by (nonlinear_arith)
        requires
            pow2(failures) == 2 * before,
    ;
}

/// Where a sequence of attempts stands.
#[derive(Clone, Copy, Debug, PartialEq, Eq, Structural)]
pub enum Phase {
    /// No attempt has ended the sequence yet: the next one may be made.
    Pending,
    /// The endpoint acknowledged the bytes.
    Delivered,
    /// Every allowed attempt failed for a reason that may pass.
    Abandoned,
    /// The endpoint rejected the bytes for good.
    Rejected,
}

/// What the caller does after an attempt.
#[derive(Clone, Copy, Debug, PartialEq, Eq, Structural)]
pub enum Step {
    /// The bytes are delivered: commit the offset.
    Commit,
    /// Wait this many milliseconds, then send the same request again.
    RetryAfter(u64),
    /// Stop trying; the bytes stay unshipped and are handed out again at
    /// the file's next change.
    Abandon,
    /// Stop trying; the endpoint will not take this request.
    Drop,
}

/// The progress of a sequence of attempts, as mathematical values.
pub struct AttemptModel {
    pub policy: RetryPolicy,
    pub attempts: nat,
    pub last_error: Option<SendResult>,
    pub phase: Phase,
}

/// A sequence before its first attempt.
pub open spec fn fresh(policy: RetryPolicy) -> AttemptModel {
    AttemptModel { policy, attempts: 0, last_error: None, phase: Phase::Pending }
}

/// The sequence after one more attempt ended in `result`. An attempt is
/// counted only while the sequence is pending; once it is over, nothing
/// changes it.
pub open spec fn recorded(attempt: AttemptModel, result: SendResult) -> AttemptModel {
    if attempt.phase != Phase::Pending {
        attempt
    } else {
        let attempts = attempt.attempts + 1;
        match outcome_of(result) {
            Outcome::Success => AttemptModel { attempts, phase: Phase::Delivered, ..attempt },
            Outcome::Transient => AttemptModel {
                attempts,
                last_error: Some(result),
                phase: if attempts < attempt.policy.attempt_cap() {
                    Phase::Pending
                } else {
                    Phase::Abandoned
                },
                ..attempt
            },
            Outcome::Permanent => AttemptModel {
                attempts,
                last_error: Some(result),
                phase: Phase::Rejected,
                ..attempt
            },
        }
    }
}

/// What the caller does when the sequence stands as `attempt` does.
pub open spec fn step_of(attempt: AttemptModel) -> Step {
    match attempt.phase {
        Phase::Delivered => Step::Commit,
        Phase::Pending => Step::RetryAfter(backoff(attempt.policy, attempt.attempts) as u64),
        Phase::Abandoned => Step::Abandon,
        Phase::Rejected => Step::Drop,
    }
}

/// The sequence after the attempts that ended in `results`, in that order.
pub open spec fn run(policy: RetryPolicy, results: Seq<SendResult>) -> AttemptModel
    decreases results.len(),
{
    if results.len() == 0 {
        fresh(policy)
    } else {
        recorded(run(policy, results.drop_last()), results.last())
    }
}

/// What an `UploadAttempt` holds, as mathematical values.
pub struct UploadModel {
    pub handler: HandlerModel,
    pub delta: Delta,
    pub progress: AttemptModel,
}

/// One range of a file's bytes on its way to the endpoint: what is sent,
/// how often it was tried, and how the last failed try ended. It lives as
/// long as the tries for that range go on.
#[derive(Debug)]
pub struct UploadAttempt {
    handler: FileHandler,
    delta: Delta,
    policy: RetryPolicy,
    attempt_count: u32,
    last_error: Option<SendResult>,
    phase: Phase,
}

impl View for UploadAttempt {
    type V = UploadModel;

    closed spec fn view(&self) -> UploadModel {
        UploadModel {
            handler: self.handler@,
            delta: self.delta,
            progress: AttemptModel {
                policy: self.policy,
                attempts: self.attempt_count as nat,
                last_error: self.last_error,
                phase: self.phase,
            },
        }
    }
}

impl UploadAttempt {
    #[verifier::type_invariant]
    spec fn well_formed(&self) -> bool {
        &&& encode_utf8(self.handler@.content).len() == self.delta.size()
        &&& self.phase == Phase::Pending ==> self.attempt_count < self.policy.attempt_cap()
    }

    /// Starts the tries for the bytes `delta` of a file, which `handler`
    /// holds as text. Refused where the text does not take up as many bytes
    /// as the range has: then the file changed while it was read.
    pub fn new(handler: FileHandler, delta: Delta, policy: RetryPolicy) -> (r: Result<
        UploadAttempt,
        ReadError,
    >)
        ensures
            match r {
                Ok(attempt) => {
                    &&& encode_utf8(handler@.content).len() == delta.size()
                    &&& attempt@ == (UploadModel {
                        handler: handler@,
                        delta,
                        progress: fresh(policy),
                    })
                },
                Err(e) => {
                    &&& e == ReadError::WrongLength
                    &&& encode_utf8(handler@.content).len() != delta.size()
                },
            },
    {
        if handler.content_len() as u64 != delta.len() {
            return Err(ReadError::WrongLength);
        }
        Ok(
            UploadAttempt {
                handler,
                delta,
                policy,
                attempt_count: 0,
                last_error: None,
                phase: Phase::Pending,
            },
        )
    }

    /// What is sent: the file's identity and the text to ship.
    pub fn handler(&self) -> (r: &FileHandler)
        ensures
            r@ == self@.handler,
            encode_utf8(r@.content).len() == self@.delta.size(),
    {
        proof {
            use_type_invariant(self);
        }
        &self.handler
    }

    /// The bytes of the file that are being shipped.
    pub fn delta(&self) -> (r: Delta)
        ensures
            r == self@.delta,
    {
        self.delta
    }

    /// The policy that the tries follow.
    pub fn policy(&self) -> (r: RetryPolicy)
        ensures
            r == self@.progress.policy,
    {
        self.policy
    }

    /// How many attempts have ended. Never more than the policy allows.
    pub fn attempt_count(&self) -> (n: u32)
        ensures
            n == self@.progress.attempts,
    {
        self.attempt_count
    }

    /// How the last failed attempt ended, if one has failed.
    pub fn last_error(&self) -> (r: Option<SendResult>)
        ensures
            r == self@.progress.last_error,
    {
        self.last_error
    }

    /// Where the tries stand.
    pub fn phase(&self) -> (r: Phase)
        ensures
            r == self@.progress.phase,
    {
        self.phase
    }

    /// Takes note of how an attempt ended and says what to do next.
    ///
    /// Success ends the tries: the offset is to be committed. A failure that
    /// may pass asks for another try after the policy's pause, until the
    /// policy's attempts are used up; then the range is abandoned. A final
    /// failure ends the tries at once. What is sent never changes, and once
    /// the tries are over further results change nothing.
    pub fn record(&mut self, result: SendResult) -> (step: Step)
        ensures
            final(self)@.handler == old(self)@.handler,
            final(self)@.delta == old(self)@.delta,
            final(self)@.progress == recorded(old(self)@.progress, result),
            step == step_of(final(self)@.progress),
    {
        proof {
            use_type_invariant(&*self);
        }
        if self.phase == Phase::Pending {
            match classify(result) {
                Outcome::Success => {
                    self.phase = Phase::Delivered;
                    self.attempt_count = self.attempt_count + 1;
                },
                Outcome::Transient => {
                    let attempts = self.attempt_count + 1;
                    if attempts >= self.policy.attempts_allowed() {
                        self.phase = Phase::Abandoned;
                    }
                    self.attempt_count = attempts;
                    self.last_error = Some(result);
                },
                Outcome::Permanent => {
                    self.phase = Phase::Rejected;
                    self.attempt_count = self.attempt_count + 1;
                    self.last_error = Some(result);
                },
            }
        }
        match self.phase {
            Phase::Delivered => Step::Commit,
            Phase::Pending => Step::RetryAfter(self.policy.delay_after(self.attempt_count)),
            Phase::Abandoned => Step::Abandon,
            Phase::Rejected => Step::Drop,
        }
    }
}

/// However the attempts end, no more are counted than were made and than
/// the policy allows, and while the tries are pending every attempt made so
/// far is counted.
pub proof fn lemma_run_bounds(policy: RetryPolicy, results: Seq<SendResult>)
    ensures
        run(policy, results).policy == policy,
        run(policy, results).attempts <= results.len(),
        run(policy, results).attempts <= policy.attempt_cap(),
        run(policy, results).phase == Phase::Pending ==> {
            &&& run(policy, results).attempts == results.len()
            &&& results.len() < policy.attempt_cap()
        },
        results.len() > 0 ==> run(policy, results).attempts >= 1,
    decreases results.len(),
{
    if results.len() > 0 {
        lemma_run_bounds(policy, results.drop_last());
    }
}

/// Once the tries are over, attempts that are reported later change nothing.
pub proof fn lemma_over_is_over(policy: RetryPolicy, results: Seq<SendResult>, later: Seq<SendResult>)
    requires
        run(policy, results).phase != Phase::Pending,
    ensures
        run(policy, results + later) == run(policy, results),
    decreases later.len(),
{
    if later.len() == 0 {
        assert(results + later == results);
    } else {
        lemma_over_is_over(policy, results, later.drop_last());
        assert((results + later).drop_last() == results + later.drop_last());
    }
}

/// While every attempt fails for a reason that may pass, the tries go on
/// until the policy's attempts are used up, and are then abandoned.
pub proof fn lemma_transient_failures(policy: RetryPolicy, results: Seq<SendResult>)
    requires
        forall|i: int| 0 <= i < results.len() ==> outcome_of(#[trigger] results[i]) == Outcome::Transient,
    ensures
        results.len() < policy.attempt_cap() ==> {
            &&& run(policy, results).phase == Phase::Pending
            &&& run(policy, results).attempts == results.len()
        },
        results.len() >= policy.attempt_cap() ==> {
            &&& run(policy, results).phase == Phase::Abandoned
            &&& run(policy, results).attempts == policy.attempt_cap()
        },
    decreases results.len(),
{
    if results.len() > 0 {
        let front = results.drop_last();
        assert forall|i: int| 0 <= i < front.len() implies outcome_of(#[trigger] front[i])
            == Outcome::Transient by {
            assert(front[i] == results[i]);
        }
        lemma_transient_failures(policy, front);
        lemma_run_bounds(policy, front);
    }
}

/// Where the attempts fail for reasons that may pass until one succeeds,
/// and the policy allows that many, the bytes are delivered by exactly that
/// many attempts, and until the last of them the tries are pending, so that
/// nothing is committed before the attempt that succeeded.
pub proof fn lemma_retry_until_success(policy: RetryPolicy, results: Seq<SendResult>)
    requires
        1 <= results.len() <= policy.attempt_cap(),
        forall|i: int|
            0 <= i < results.len() - 1 ==> outcome_of(#[trigger] results[i]) == Outcome::Transient,
        outcome_of(results.last()) == Outcome::Success,
    ensures
        run(policy, results).phase == Phase::Delivered,
        run(policy, results).attempts == results.len(),
        forall|k: int|
            0 <= k < results.len() ==> {
                &&& (#[trigger] run(policy, results.take(k))).phase == Phase::Pending
                &&& run(policy, results.take(k)).attempts == k
            },
{
    assert forall|k: int| 0 <= k < results.len() implies {
        &&& (#[trigger] run(policy, results.take(k))).phase == Phase::Pending
        &&& run(policy, results.take(k)).attempts == k
    } by {
        let front = results.take(k);
        assert forall|i: int| 0 <= i < front.len() implies outcome_of(#[trigger] front[i])
            == Outcome::Transient by {
            assert(front[i] == results[i]);
        }
        lemma_transient_failures(policy, front);
    }
    let front = results.take(results.len() - 1);
    assert(results.drop_last() == front);
    assert(run(policy, front).phase == Phase::Pending);
    lemma_run_bounds(policy, front);
}

/// Where the first attempt fails for good, it is the only one that counts:
/// the bytes are rejected, whatever is reported afterwards.
pub proof fn lemma_permanent_failure(policy: RetryPolicy, results: Seq<SendResult>)
    requires
        results.len() >= 1,
        outcome_of(results[0]) == Outcome::Permanent,
    ensures
        run(policy, results).phase == Phase::Rejected,
        run(policy, results).attempts == 1,
        run(policy, results).last_error == Some(results[0]),
{
    let first = results.take(1);
    assert(first.drop_last() == Seq::<SendResult>::empty());
    assert(first.last() == results[0]);
    assert(run(policy, first.drop_last()) == fresh(policy));
    assert(run(policy, first).phase == Phase::Rejected);
    lemma_over_is_over(policy, first, results.skip(1));
    assert(first + results.skip(1) == results);
}

/// Two attempts that fail for reasons that may pass and a third that
/// succeeds deliver the bytes under every policy: each failure asks for
/// another try after the policy's pause, the success ends the tries, and
/// three attempts are counted, no more and no fewer.
pub proof fn lemma_third_attempt_delivers(
    policy: RetryPolicy,
    first: SendResult,
    second: SendResult,
    third: SendResult,
)
    requires
        outcome_of(first) == Outcome::Transient,
        outcome_of(second) == Outcome::Transient,
        outcome_of(third) == Outcome::Success,
    ensures
        run(policy, seq![first]).phase == Phase::Pending,
        run(policy, seq![first]).attempts == 1,
        step_of(run(policy, seq![first])) == Step::RetryAfter(backoff(policy, 1) as u64),
        run(policy, seq![first, second]).phase == Phase::Pending,
        run(policy, seq![first, second]).attempts == 2,
        step_of(run(policy, seq![first, second])) == Step::RetryAfter(backoff(policy, 2) as u64),
        run(policy, seq![first, second, third]).phase == Phase::Delivered,
        run(policy, seq![first, second, third]).attempts == 3,
        step_of(run(policy, seq![first, second, third])) == Step::Commit,
{
    let results = seq![first, second, third];
    lemma_retry_until_success(policy, results);
    assert(results.take(1) == seq![first]);
    assert(results.take(2) == seq![first, second]);
    lemma_run_bounds(policy, seq![first]);
    lemma_run_bounds(policy, seq![first, second]);
}

} // verus!
