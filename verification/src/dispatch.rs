//! The pipeline as a whole: from a change notification to a committed offset.
//!
//! The dispatcher performs no input or output. Its caller stats and reads the
//! files and sends the requests, and reports back what it found; the
//! dispatcher says what follows from it.

use crate::codec::{
    decode_spec, lemma_extension_of_log_file, DecodeError, IdentityModel, TaskIdentity,
};
use crate::event::{classify_spec, log_suffix, EventFilter, RawEvent};
use crate::handler::{FileHandler, HandlerError, HandlerModel, ReadError};
use crate::offset::{
    advanced, committed, first_sight, next_delta, released, Delta, FileModel, FileState,
    OffsetTracker,
};
use crate::text::{file_name, split};
use crate::upload::{
    fresh, lemma_permanent_failure, lemma_retry_until_success, outcome_of, recorded, run, step_of,
    AttemptModel, Outcome, Phase, RetryPolicy, SendResult, Step, UploadAttempt, UploadModel,
};
use vstd::prelude::*;
use vstd::utf8::{decode_utf8, valid_utf8};

verus! {

/// What a change notification asks for.
#[derive(Debug, PartialEq, Eq)]
pub enum Dispatch {
    /// Nothing: the event does not say that a log file was written.
    Ignored,
    /// Nothing: the file's name carries no identity. Such a file is skipped,
    /// now and at every later event.
    Rejected { path: String, error: DecodeError },
    /// The file at `path` is the log of `identity` and may hold unshipped
    /// bytes: look at its size.
    Inspect { path: String, identity: TaskIdentity },
}

/// What an event asks for, as mathematical values.
pub enum DispatchModel {
    Ignored,
    Rejected { path: Seq<char>, error: DecodeError },
    Inspect { path: Seq<char>, identity: IdentityModel },
}

impl View for Dispatch {
    type V = DispatchModel;

    open spec fn view(&self) -> DispatchModel {
        match *self {
            Dispatch::Ignored => DispatchModel::Ignored,
            Dispatch::Rejected { path, error } => DispatchModel::Rejected { path: path@, error },
            Dispatch::Inspect { path, identity } => DispatchModel::Inspect {
                path: path@,
                identity: identity@,
            },
        }
    }
}

/// What the event asks for under a filter for `suffix`: it is ignored
/// unless the filter lets it pass, rejected where the file name of its path
/// does not decode, and otherwise names a log file to inspect.
pub open spec fn dispatch_spec(suffix: Seq<char>, event: RawEvent) -> DispatchModel {
    match classify_spec(suffix, event) {
        None => DispatchModel::Ignored,
        Some(path) => match decode_spec(file_name(path)) {
            Ok(identity) => DispatchModel::Inspect { path, identity },
            Err(error) => DispatchModel::Rejected { path, error },
        },
    }
}

/// What becomes of bytes read from the range `delta` of the file at `path`:
/// the handler to ship them with, or the reason why they cannot be shipped.
/// The name is looked at first, then the text, then the length.
pub open spec fn load_spec(path: Seq<char>, delta: Delta, content: Seq<u8>) -> Result<
    HandlerModel,
    HandlerError,
> {
    match decode_spec(file_name(path)) {
        Err(e) => Err(HandlerError::Decode(e)),
        Ok(identity) => if !valid_utf8(content) {
            Err(HandlerError::Read(ReadError::NotText))
        } else if content.len() != delta.size() {
            Err(HandlerError::Read(ReadError::WrongLength))
        } else {
            Ok(HandlerModel { filepath: path, identity, content: decode_utf8(content) })
        },
    }
}

/// The file after an attempt to ship `delta` ended in `result`, where the
/// tries stood as `before` says. Delivery commits the range; the end of the
/// tries without delivery releases it; as long as another try is to follow,
/// and once the tries are over, the file stays as it is.
pub open spec fn settled(
    file: FileModel,
    delta: Delta,
    before: AttemptModel,
    result: SendResult,
) -> FileModel {
    if before.phase != Phase::Pending {
        file
    } else {
        match recorded(before, result).phase {
            Phase::Delivered => committed(file, delta),
            Phase::Pending => file,
            Phase::Abandoned => released(file, delta),
            Phase::Rejected => released(file, delta),
        }
    }
}

/// The table after the file at `path`, if it is watched, became `file`.
pub open spec fn with_file(
    files: Map<Seq<char>, FileModel>,
    path: Seq<char>,
    file: FileModel,
) -> Map<Seq<char>, FileModel> {
    if files.contains_key(path) {
        files.insert(path, file)
    } else {
        files
    }
}

/// The decisions of the log shipper: its filter, its retry policy, and the
/// table of the files it watches.
#[derive(Debug)]
pub struct Dispatcher {
    filter: EventFilter,
    policy: RetryPolicy,
    tracker: OffsetTracker,
}

impl Dispatcher {
    /// The suffix that marks log files.
    pub closed spec fn suffix(&self) -> Seq<char> {
        self.filter.suffix@
    }

    /// The policy that uploads follow.
    pub closed spec fn retry_policy(&self) -> RetryPolicy {
        self.policy
    }

    /// The watched files by their paths.
    pub closed spec fn files(&self) -> Map<Seq<char>, FileModel> {
        self.tracker@
    }

    /// What is known of the file at `path`; `first_sight` of it where it is
    /// not watched yet.
    pub open spec fn known(&self, path: Seq<char>) -> FileModel {
        if self.files().contains_key(path) {
            self.files()[path]
        } else {
            first_sight(path)
        }
    }

    /// A dispatcher that watches no file yet.
    pub fn new(filter: EventFilter, policy: RetryPolicy) -> (dispatcher: Self)
        ensures
            dispatcher.suffix() == filter.suffix@,
            dispatcher.retry_policy() == policy,
            dispatcher.files() == Map::<Seq<char>, FileModel>::empty(),
    {
        Dispatcher { filter, policy, tracker: OffsetTracker::new() }
    }

    /// The table of watched files.
    pub fn tracker(&self) -> (r: &OffsetTracker)
        ensures
            r@ == self.files(),
    {
        &self.tracker
    }

    /// The policy that uploads follow.
    pub fn policy(&self) -> (r: RetryPolicy)
        ensures
            r == self.retry_policy(),
    {
        self.policy
    }

    /// Says what a change notification asks for. A log file that is met for
    /// the first time is taken under watch, with nothing shipped; nothing
    /// else changes.
    pub fn on_event(&mut self, event: &RawEvent) -> (r: Dispatch)
        ensures
            final(self).suffix() == old(self).suffix(),
            final(self).retry_policy() == old(self).retry_policy(),
            r@ == dispatch_spec(old(self).suffix(), *event),
            final(self).files() == match r@ {
                DispatchModel::Inspect { path, identity } => old(self).files().insert(
                    path,
                    old(self).known(path),
                ),
                _ => old(self).files(),
            },
    {
        let path = match self.filter.classify(event) {
            Some(path) => path,
            None => {
                return Dispatch::Ignored;
            },
        };
        match self.tracker.watch(path.as_str()) {
            Ok(identity) => Dispatch::Inspect { path, identity },
            Err(error) => Dispatch::Rejected { path, error },
        }
    }

    /// Hands out the unshipped bytes of the file at `path`, found to be
    /// `current_size` bytes long, and notes them as in flight.
    ///
    /// The file is taken under watch where it was not, with nothing shipped.
    /// A file that shrank below what was shipped is handed out whole. Where
    /// the file's name does not decode, that is returned and nothing changes.
    pub fn plan(&mut self, path: &str, current_size: u64) -> (r: Result<Delta, DecodeError>)
        ensures
            final(self).suffix() == old(self).suffix(),
            final(self).retry_policy() == old(self).retry_policy(),
            match r {
                Ok(delta) => {
                    &&& decode_spec(file_name(path@)) is Ok
                    &&& delta == next_delta(old(self).known(path@).offset, current_size)
                    &&& final(self).files() == old(self).files().insert(
                        path@,
                        advanced(old(self).known(path@), current_size),
                    )
                },
                Err(e) => {
                    &&& decode_spec(file_name(path@)) == Err::<IdentityModel, DecodeError>(e)
                    &&& final(self).files() == old(self).files()
                },
            },
    {
        self.tracker.advance(path, current_size)
    }

    /// Gives up shipping the bytes `delta` of the file at `path`, as after a
    /// failure to read them. The offset stays, so the bytes are handed out
    /// again at the file's next change.
    pub fn release(&mut self, path: &str, delta: Delta)
        ensures
            final(self).suffix() == old(self).suffix(),
            final(self).retry_policy() == old(self).retry_policy(),
            final(self).files() == with_file(
                old(self).files(),
                path@,
                released(old(self).known(path@), delta),
            ),
    {
        let ghost before = self.tracker@;
        let applied = self.tracker.release(path, delta);
        proof {
            if before.contains_key(path@) && !applied {
                assert(before.insert(path@, before[path@]) == before);
            }
        }
    }

    /// Makes the bytes `content`, read from the range `delta` of the file at
    /// `path`, ready for shipping under the dispatcher's policy.
    ///
    /// Where they cannot be shipped, the reason is returned and the range is
    /// released, so that nothing of it counts as shipped.
    pub fn load(&mut self, path: &str, delta: Delta, content: Vec<u8>) -> (r: Result<
        UploadAttempt,
        HandlerError,
    >)
        ensures
            final(self).suffix() == old(self).suffix(),
            final(self).retry_policy() == old(self).retry_policy(),
            match r {
                Ok(attempt) => {
                    &&& load_spec(path@, delta, content@) is Ok
                    &&& attempt@ == (UploadModel {
                        handler: load_spec(path@, delta, content@)->Ok_0,
                        delta,
                        progress: fresh(old(self).retry_policy()),
                    })
                    &&& final(self).files() == old(self).files()
                },
                Err(e) => {
                    &&& load_spec(path@, delta, content@) == Err::<HandlerModel, HandlerError>(e)
                    &&& final(self).files() == with_file(
                        old(self).files(),
                        path@,
                        released(old(self).known(path@), delta),
                    )
                },
            },
    {
        let loaded = match FileHandler::new(path, content) {
            Ok(handler) => match UploadAttempt::new(handler, delta, self.policy) {
                Ok(attempt) => Ok(attempt),
                Err(e) => Err(HandlerError::Read(e)),
            },
            Err(e) => Err(e),
        };
        match loaded {
            Ok(attempt) => Ok(attempt),
            Err(e) => {
                self.release(path, delta);
                Err(e)
            },
        }
    }

    /// Takes note of how an attempt to send `attempt` ended, changes the
    /// table accordingly, and says what to do next.
    ///
    /// The offset of the attempt's file moves, to the end of the attempt's
    /// range, exactly when the step is `Commit`. `Abandon` and `Drop` release
    /// the range with the offset unchanged. `RetryAfter` changes nothing.
    pub fn settle(&mut self, attempt: &mut UploadAttempt, result: SendResult) -> (step: Step)
        ensures
            final(self).suffix() == old(self).suffix(),
            final(self).retry_policy() == old(self).retry_policy(),
            final(attempt)@.handler == old(attempt)@.handler,
            final(attempt)@.delta == old(attempt)@.delta,
            final(attempt)@.progress == recorded(old(attempt)@.progress, result),
            step == step_of(final(attempt)@.progress),
            final(self).files() == with_file(
                old(self).files(),
                old(attempt)@.handler.filepath,
                settled(
                    old(self).known(old(attempt)@.handler.filepath),
                    old(attempt)@.delta,
                    old(attempt)@.progress,
                    result,
                ),
            ),
    {
        let ghost before = self.tracker@;
        let ghost path = attempt@.handler.filepath;
        proof {
            if before.contains_key(path) {
                assert(before.insert(path, before[path]) == before);
            }
        }
        if attempt.phase() != Phase::Pending {
            return attempt.record(result);
        }
        let step = attempt.record(result);
        match step {
            Step::Commit => {
                self.tracker.commit(attempt.handler().filepath(), attempt.delta());
            },
            Step::RetryAfter(_) => {},
            Step::Abandon => {
                self.tracker.release(attempt.handler().filepath(), attempt.delta());
            },
            Step::Drop => {
                self.tracker.release(attempt.handler().filepath(), attempt.delta());
            },
        }
        step
    }
}

/// The file after the attempts to ship `delta` that ended in `results`, in
/// that order, each settled as it ended.
pub open spec fn shipped(
    policy: RetryPolicy,
    file: FileModel,
    delta: Delta,
    results: Seq<SendResult>,
) -> FileModel
    decreases results.len(),
{
    if results.len() == 0 {
        file
    } else {
        settled(
            shipped(policy, file, delta, results.drop_last()),
            delta,
            run(policy, results.drop_last()),
            results.last(),
        )
    }
}

/// What the attempts leave of a file depends only on where the tries stand:
/// the range is committed if they ended in delivery, released if they ended
/// without, and the file is untouched while they are pending.
pub proof fn lemma_shipped(
    policy: RetryPolicy,
    file: FileModel,
    delta: Delta,
    results: Seq<SendResult>,
)
    ensures
        shipped(policy, file, delta, results) == match run(policy, results).phase {
            Phase::Pending => file,
            Phase::Delivered => committed(file, delta),
            Phase::Abandoned => released(file, delta),
            Phase::Rejected => released(file, delta),
        },
    decreases results.len(),
{
    if results.len() > 0 {
        lemma_shipped(policy, file, delta, results.drop_last());
    }
}

/// Where the attempts for a range in flight fail for reasons that may pass
/// until one succeeds, and the policy allows that many, the offset stays
/// where it is through every failed attempt and moves to the range's end
/// with the successful one, which is the last attempt made.
pub proof fn lemma_commit_follows_delivery(
    policy: RetryPolicy,
    file: FileModel,
    delta: Delta,
    results: Seq<SendResult>,
)
    requires
        file.state == FileState::InFlight(delta),
        1 <= results.len() <= policy.attempt_cap(),
        forall|i: int|
            0 <= i < results.len() - 1 ==> outcome_of(#[trigger] results[i]) == Outcome::Transient,
        outcome_of(results.last()) == Outcome::Success,
    ensures
        forall|k: int|
            0 <= k < results.len() ==> #[trigger] shipped(policy, file, delta, results.take(k))
                == file,
        shipped(policy, file, delta, results).offset == delta.end,
        shipped(policy, file, delta, results).state == FileState::Idle,
        run(policy, results).attempts == results.len(),
{
    lemma_retry_until_success(policy, results);
    lemma_shipped(policy, file, delta, results);
    assert forall|k: int| 0 <= k < results.len() implies #[trigger] shipped(
        policy,
        file,
        delta,
        results.take(k),
    ) == file by {
        lemma_shipped(policy, file, delta, results.take(k));
        assert(run(policy, results.take(k)).phase == Phase::Pending);
    }
}

/// A file of which some bytes are unshipped is handed out, fails to be sent
/// twice for reasons that may pass, and is sent at the third attempt: under
/// every policy the offset stays where it was through both failures, moves
/// to the file's size with the third attempt, which is the last, and the
/// next range begins there.
pub proof fn lemma_third_attempt_commits(
    policy: RetryPolicy,
    file: FileModel,
    current_size: u64,
    later_size: u64,
    first: SendResult,
    second: SendResult,
    third: SendResult,
)
    requires
        file.offset < current_size <= later_size,
        outcome_of(first) == Outcome::Transient,
        outcome_of(second) == Outcome::Transient,
        outcome_of(third) == Outcome::Success,
    ensures
        ({
            let delta = next_delta(file.offset, current_size);
            let handed = advanced(file, current_size);
            let results = seq![first, second, third];
            &&& delta == (Delta { start: file.offset, end: current_size })
            &&& shipped(policy, handed, delta, seq![first]) == handed
            &&& shipped(policy, handed, delta, seq![first, second]) == handed
            &&& handed.offset == file.offset
            &&& shipped(policy, handed, delta, results).offset == current_size
            &&& shipped(policy, handed, delta, results).state == FileState::Idle
            &&& run(policy, results).attempts == 3
            &&& next_delta(shipped(policy, handed, delta, results).offset, later_size) == (Delta {
                start: current_size,
                end: later_size,
            })
        }),
{
    let delta = next_delta(file.offset, current_size);
    let handed = advanced(file, current_size);
    let results = seq![first, second, third];
    lemma_commit_follows_delivery(policy, handed, delta, results);
    assert(results.take(1) == seq![first]);
    assert(results.take(2) == seq![first, second]);
}

/// Where the first attempt for a range in flight fails for good, it is the
/// only attempt, and the offset stays where it is.
pub proof fn lemma_rejection_commits_nothing(
    policy: RetryPolicy,
    file: FileModel,
    delta: Delta,
    results: Seq<SendResult>,
)
    requires
        results.len() >= 1,
        outcome_of(results[0]) == Outcome::Permanent,
    ensures
        run(policy, results).attempts == 1,
        shipped(policy, file, delta, results) == released(file, delta),
        shipped(policy, file, delta, results).offset == file.offset,
{
    lemma_permanent_failure(policy, results);
    lemma_shipped(policy, file, delta, results);
}

/// However the attempts end, the offset moves only by delivery.
pub proof fn lemma_offset_moves_by_delivery(
    policy: RetryPolicy,
    file: FileModel,
    delta: Delta,
    results: Seq<SendResult>,
)
    ensures
        run(policy, results).phase != Phase::Delivered ==> shipped(
            policy,
            file,
            delta,
            results,
        ).offset == file.offset,
{
    lemma_shipped(policy, file, delta, results);
}

/// Under the filter for log files, every file that an event gives to
/// inspect has the extension `out`.
pub proof fn lemma_inspected_extension(event: RawEvent)
    requires
        dispatch_spec(log_suffix(), event) is Inspect,
    ensures
        event.paths@.len() == 1,
        split(file_name(event.paths@[0]@), '.')[3] == seq!['o', 'u', 't'],
{
    lemma_extension_of_log_file(file_name(event.paths@[0]@));
}

} // verus!
