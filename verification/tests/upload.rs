use log_shipper::handler::{FileHandler, HandlerError, Log, ReadError};
use log_shipper::codec::DecodeError;
use log_shipper::offset::Delta;
use log_shipper::upload::{
    classify, classify_status, Outcome, Phase, RetryPolicy, SendResult, Step, UploadAttempt,
};

const LOG: &str = "/logs/build.3.ad7e47a1-15a1-44f8-b4cb-924b02e1cc89.out";

fn policy() -> RetryPolicy {
    RetryPolicy { max_attempts: 5, base_delay_ms: 100, max_delay_ms: 1000 }
}

fn attempt(max_attempts: u32) -> UploadAttempt {
    let handler = FileHandler::new(LOG, b"hello".to_vec()).unwrap();
    let policy = RetryPolicy { max_attempts, ..policy() };
    UploadAttempt::new(handler, Delta { start: 10, end: 15 }, policy).unwrap()
}

#[test]
fn status_codes_are_classified_by_class() {
    for code in [200, 201, 204, 299] {
        assert_eq!(classify_status(code), Outcome::Success, "{}", code);
    }
    for code in [500, 502, 503, 599] {
        assert_eq!(classify_status(code), Outcome::Transient, "{}", code);
    }
    for code in [400, 401, 404, 408, 422, 429, 499] {
        assert_eq!(classify_status(code), Outcome::Permanent, "{}", code);
    }
    for code in [0, 100, 199, 300, 304, 399, 600, u16::MAX] {
        assert_eq!(classify_status(code), Outcome::Permanent, "{}", code);
    }
}

#[test]
fn send_results_are_classified() {
    assert_eq!(classify(SendResult::Answered(200)), Outcome::Success);
    assert_eq!(classify(SendResult::Answered(503)), Outcome::Transient);
    assert_eq!(classify(SendResult::Answered(400)), Outcome::Permanent);
    assert_eq!(classify(SendResult::Unreachable), Outcome::Transient);
    assert_eq!(classify(SendResult::TimedOut), Outcome::Transient);
    assert_eq!(classify(SendResult::Unsendable), Outcome::Permanent);
}

#[test]
fn backoff_doubles_up_to_the_cap() {
    let p = policy();
    assert_eq!(p.delay_after(0), 0);
    assert_eq!(p.delay_after(1), 100);
    assert_eq!(p.delay_after(2), 200);
    assert_eq!(p.delay_after(3), 400);
    assert_eq!(p.delay_after(4), 800);
    assert_eq!(p.delay_after(5), 1000);
    assert_eq!(p.delay_after(6), 1000);
    assert_eq!(p.delay_after(u32::MAX), 1000);
}

#[test]
fn backoff_at_the_edges() {
    let zero = RetryPolicy { max_attempts: 3, base_delay_ms: 0, max_delay_ms: 1000 };
    assert_eq!(zero.delay_after(1), 0);
    assert_eq!(zero.delay_after(u32::MAX), 0);
    let capped = RetryPolicy { max_attempts: 3, base_delay_ms: 5000, max_delay_ms: 1000 };
    assert_eq!(capped.delay_after(1), 1000);
    assert_eq!(capped.delay_after(2), 1000);
    let no_pause = RetryPolicy { max_attempts: 3, base_delay_ms: 100, max_delay_ms: 0 };
    assert_eq!(no_pause.delay_after(3), 0);
    let wide = RetryPolicy { max_attempts: 3, base_delay_ms: 1, max_delay_ms: u64::MAX };
    assert_eq!(wide.delay_after(1), 1);
    assert_eq!(wide.delay_after(11), 1024);
    assert_eq!(wide.delay_after(64), 1 << 63);
    assert_eq!(wide.delay_after(65), u64::MAX);
    assert_eq!(wide.delay_after(1000), u64::MAX);
    let odd = RetryPolicy { max_attempts: 3, base_delay_ms: 3, max_delay_ms: 13 };
    assert_eq!(odd.delay_after(2), 6);
    assert_eq!(odd.delay_after(3), 12);
    assert_eq!(odd.delay_after(4), 13);
}

#[test]
fn default_policy() {
    let p = RetryPolicy::default();
    assert_eq!(p, RetryPolicy { max_attempts: 5, base_delay_ms: 500, max_delay_ms: 30_000 });
    assert_eq!(p.delay_after(1), 500);
    assert_eq!(p.delay_after(2), 1000);
    assert_eq!(p.delay_after(3), 2000);
    assert_eq!(p.delay_after(4), 4000);
    assert_eq!(p.delay_after(7), 30_000);
}

#[test]
fn payload_carries_content_and_uuid() {
    let handler = FileHandler::new(LOG, b"two\nlines\n".to_vec()).unwrap();
    assert_eq!(
        handler.payload(),
        vec![("content", "two\nlines\n"), ("uuid", "ad7e47a1-15a1-44f8-b4cb-924b02e1cc89")]
    );
}

#[test]
fn a_new_attempt_is_pending() {
    let a = attempt(5);
    assert_eq!(a.attempt_count(), 0);
    assert_eq!(a.last_error(), None);
    assert_eq!(a.phase(), Phase::Pending);
    assert_eq!(a.delta(), Delta { start: 10, end: 15 });
    assert_eq!(a.policy(), policy());
    assert_eq!(a.handler().conent(), "hello");
    assert_eq!(a.handler().uuid(), "ad7e47a1-15a1-44f8-b4cb-924b02e1cc89");
    assert_eq!(a.handler().filepath(), LOG);
}

#[test]
fn success_at_once_commits() {
    let mut a = attempt(5);
    assert_eq!(a.record(SendResult::Answered(200)), Step::Commit);
    assert_eq!(a.attempt_count(), 1);
    assert_eq!(a.phase(), Phase::Delivered);
    assert_eq!(a.last_error(), None);
}

#[test]
fn transient_failures_are_retried_with_growing_pauses() {
    let mut a = attempt(5);
    assert_eq!(a.record(SendResult::Answered(503)), Step::RetryAfter(100));
    assert_eq!(a.record(SendResult::TimedOut), Step::RetryAfter(200));
    assert_eq!(a.record(SendResult::Unreachable), Step::RetryAfter(400));
    assert_eq!(a.attempt_count(), 3);
    assert_eq!(a.last_error(), Some(SendResult::Unreachable));
    assert_eq!(a.phase(), Phase::Pending);
    assert_eq!(a.record(SendResult::Answered(201)), Step::Commit);
    assert_eq!(a.attempt_count(), 4);
    assert_eq!(a.last_error(), Some(SendResult::Unreachable));
}

#[test]
fn retries_end_when_the_attempts_are_used_up() {
    let mut a = attempt(3);
    assert_eq!(a.record(SendResult::Answered(500)), Step::RetryAfter(100));
    assert_eq!(a.record(SendResult::Answered(500)), Step::RetryAfter(200));
    assert_eq!(a.record(SendResult::Answered(500)), Step::Abandon);
    assert_eq!(a.attempt_count(), 3);
    assert_eq!(a.phase(), Phase::Abandoned);
    assert_eq!(a.last_error(), Some(SendResult::Answered(500)));
}

#[test]
fn every_policy_allows_three_attempts() {
    for max_attempts in [0, 1, 2, 3] {
        let policy = RetryPolicy { max_attempts, ..policy() };
        assert_eq!(policy.attempts_allowed(), 3);
        let mut a = attempt(max_attempts);
        assert_eq!(a.record(SendResult::TimedOut), Step::RetryAfter(100));
        assert_eq!(a.record(SendResult::Answered(503)), Step::RetryAfter(200));
        assert_eq!(a.record(SendResult::Unreachable), Step::Abandon);
        assert_eq!(a.attempt_count(), 3);
        let mut b = attempt(max_attempts);
        assert_eq!(b.record(SendResult::TimedOut), Step::RetryAfter(100));
        assert_eq!(b.record(SendResult::TimedOut), Step::RetryAfter(200));
        assert_eq!(b.record(SendResult::Answered(200)), Step::Commit);
        assert_eq!(b.attempt_count(), 3);
        assert_eq!(b.handler().conent(), "hello");
    }
    assert_eq!(RetryPolicy { max_attempts: 4, ..policy() }.attempts_allowed(), 4);
    assert_eq!(RetryPolicy { max_attempts: u32::MAX, ..policy() }.attempts_allowed(), u32::MAX);
    let mut a = attempt(0);
    assert_eq!(a.record(SendResult::Answered(200)), Step::Commit);
    assert_eq!(a.attempt_count(), 1);
}

#[test]
fn permanent_failure_is_not_retried() {
    let mut a = attempt(5);
    assert_eq!(a.record(SendResult::Answered(400)), Step::Drop);
    assert_eq!(a.attempt_count(), 1);
    assert_eq!(a.phase(), Phase::Rejected);
    assert_eq!(a.last_error(), Some(SendResult::Answered(400)));
}

#[test]
fn results_after_the_end_change_nothing() {
    let mut a = attempt(5);
    assert_eq!(a.record(SendResult::Answered(404)), Step::Drop);
    assert_eq!(a.record(SendResult::Answered(200)), Step::Drop);
    assert_eq!(a.record(SendResult::TimedOut), Step::Drop);
    assert_eq!(a.attempt_count(), 1);
    assert_eq!(a.last_error(), Some(SendResult::Answered(404)));
    let mut b = attempt(5);
    assert_eq!(b.record(SendResult::Answered(200)), Step::Commit);
    assert_eq!(b.record(SendResult::Answered(500)), Step::Commit);
    assert_eq!(b.attempt_count(), 1);
    assert_eq!(b.last_error(), None);
    let mut c = attempt(3);
    assert_eq!(c.record(SendResult::TimedOut), Step::RetryAfter(100));
    assert_eq!(c.record(SendResult::TimedOut), Step::RetryAfter(200));
    assert_eq!(c.record(SendResult::TimedOut), Step::Abandon);
    assert_eq!(c.record(SendResult::Answered(200)), Step::Abandon);
    assert_eq!(c.attempt_count(), 3);
}

#[test]
fn attempt_needs_as_many_bytes_as_the_range_has() {
    let handler = FileHandler::new(LOG, b"hello".to_vec()).unwrap();
    assert_eq!(
        UploadAttempt::new(handler, Delta { start: 10, end: 16 }, policy()).unwrap_err(),
        ReadError::WrongLength
    );
    let handler = FileHandler::new(LOG, "héllo".as_bytes().to_vec()).unwrap();
    assert_eq!(handler.content_len(), 6);
    assert!(UploadAttempt::new(handler, Delta { start: 10, end: 16 }, policy()).is_ok());
    let handler = FileHandler::new(LOG, Vec::new()).unwrap();
    assert!(UploadAttempt::new(handler, Delta { start: 9, end: 9 }, policy()).is_ok());
}

#[test]
fn handler_reads_bytes_as_text() {
    let handler = FileHandler::new(LOG, "line one\nzwei: äöü €\n".as_bytes().to_vec()).unwrap();
    assert_eq!(handler.conent(), "line one\nzwei: äöü €\n");
    let wide = FileHandler::new(LOG, vec![0xf0, 0x9f, 0x98, 0x80]).unwrap();
    assert_eq!(wide.conent(), "\u{1f600}");
    assert_eq!(wide.content_len(), 4);
    assert_eq!(handler.uuid(), "ad7e47a1-15a1-44f8-b4cb-924b02e1cc89");
    assert_eq!(handler.filepath(), LOG);
    assert_eq!(handler.identity().task_name(), "build");
    assert_eq!(handler.identity().rerun_id(), 3);
    assert_eq!(handler.content_len(), 26);
}

#[test]
fn handler_refuses_bytes_that_are_no_text() {
    for bytes in [
        vec![0xff],
        vec![b'a', 0xc3],
        vec![0xed, 0xa0, 0x80],
        vec![0xc0, 0x80],
        vec![0xf4, 0x90, 0x80, 0x80],
        vec![0x80],
    ] {
        assert_eq!(
            FileHandler::new(LOG, bytes).unwrap_err(),
            HandlerError::Read(ReadError::NotText)
        );
    }
}

#[test]
fn handler_looks_at_the_name_first() {
    assert_eq!(
        FileHandler::new("/logs/build.out", vec![0xff]).unwrap_err(),
        HandlerError::Decode(DecodeError::WrongPartCount)
    );
    assert_eq!(
        FileHandler::new("/logs/a.b.c.out", b"ok".to_vec()).unwrap_err(),
        HandlerError::Decode(DecodeError::InvalidRerunId)
    );
    assert_eq!(
        FileHandler::new("/logs/a.1.c.out", b"ok".to_vec()).unwrap_err(),
        HandlerError::Decode(DecodeError::InvalidUuid)
    );
}

#[test]
fn log_holds_what_it_was_given() {
    let log = Log::new("/logs/x.out", "some-uuid", b"text".to_vec()).unwrap();
    assert_eq!(log.filepath, "/logs/x.out");
    assert_eq!(log.uuid, "some-uuid");
    assert_eq!(log.content, "text");
    assert_eq!(Log::new("/logs/x.out", "u", vec![0x80]).unwrap_err(), ReadError::NotText);
}
