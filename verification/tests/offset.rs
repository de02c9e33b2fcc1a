use log_shipper::codec::DecodeError;
use log_shipper::offset::{Delta, FileState, OffsetTracker, WatchedFile};

const LOG: &str = "/logs/build.3.ad7e47a1-15a1-44f8-b4cb-924b02e1cc89.out";
const OTHER: &str = "/logs/test.1.00000000-0000-0000-0000-000000000000.out";

#[test]
fn delta_length() {
    assert_eq!(Delta { start: 100, end: 150 }.len(), 50);
    assert_eq!(Delta { start: 0, end: 0 }.len(), 0);
    assert_eq!(Delta { start: 7, end: 3 }.len(), 0);
    assert!(Delta { start: 5, end: 5 }.is_empty());
    assert!(Delta { start: 7, end: 3 }.is_empty());
    assert!(!Delta { start: 5, end: 6 }.is_empty());
    assert_eq!(Delta { start: 0, end: u64::MAX }.len(), u64::MAX);
}

#[test]
fn first_sight_starts_at_zero() {
    let mut tracker = OffsetTracker::new();
    assert!(tracker.is_empty());
    assert_eq!(tracker.offset_of(LOG), None);
    assert_eq!(tracker.advance(LOG, 120), Ok(Delta { start: 0, end: 120 }));
    assert_eq!(tracker.offset_of(LOG), Some(0));
    assert_eq!(tracker.len(), 1);
    let file = tracker.get(LOG).unwrap();
    assert_eq!(file.path(), LOG);
    assert_eq!(file.identity().task_name(), "build");
    assert_eq!(file.identity().rerun_id(), 3);
    assert_eq!(file.last_shipped_offset(), 0);
    assert_eq!(file.state(), FileState::InFlight(Delta { start: 0, end: 120 }));
}

#[test]
fn two_writes_ship_as_two_ranges() {
    let mut tracker = OffsetTracker::new();
    let first = tracker.advance(LOG, 100).unwrap();
    assert_eq!(first, Delta { start: 0, end: 100 });
    assert_eq!(first.len(), 100);
    assert!(tracker.commit(LOG, first));
    assert_eq!(tracker.offset_of(LOG), Some(100));
    let second = tracker.advance(LOG, 150).unwrap();
    assert_eq!(second, Delta { start: 100, end: 150 });
    assert_eq!(second.len(), 50);
    assert!(tracker.commit(LOG, second));
    assert_eq!(tracker.offset_of(LOG), Some(150));
    assert_eq!(tracker.get(LOG).unwrap().state(), FileState::Idle);
}

#[test]
fn unchanged_size_gives_an_empty_range() {
    let mut tracker = OffsetTracker::new();
    let first = tracker.advance(LOG, 100).unwrap();
    tracker.commit(LOG, first);
    let again = tracker.advance(LOG, 100).unwrap();
    assert_eq!(again, Delta { start: 100, end: 100 });
    assert!(again.is_empty());
    assert_eq!(tracker.get(LOG).unwrap().state(), FileState::Idle);
    assert!(!tracker.commit(LOG, again));
    assert_eq!(tracker.offset_of(LOG), Some(100));
}

#[test]
fn truncation_resends_the_whole_file() {
    let mut tracker = OffsetTracker::new();
    let first = tracker.advance(LOG, 100).unwrap();
    tracker.commit(LOG, first);
    let after = tracker.advance(LOG, 40).unwrap();
    assert_eq!(after, Delta { start: 0, end: 40 });
    assert_eq!(tracker.offset_of(LOG), Some(0));
    assert!(tracker.commit(LOG, after));
    assert_eq!(tracker.offset_of(LOG), Some(40));
}

#[test]
fn truncation_to_nothing_resets_the_offset() {
    let mut tracker = OffsetTracker::new();
    let first = tracker.advance(LOG, 100).unwrap();
    tracker.commit(LOG, first);
    let after = tracker.advance(LOG, 0).unwrap();
    assert_eq!(after, Delta { start: 0, end: 0 });
    assert_eq!(tracker.offset_of(LOG), Some(0));
}

#[test]
fn failed_upload_leaves_the_offset() {
    let mut tracker = OffsetTracker::new();
    let first = tracker.advance(LOG, 100).unwrap();
    assert!(tracker.release(LOG, first));
    assert_eq!(tracker.offset_of(LOG), Some(0));
    assert_eq!(tracker.get(LOG).unwrap().state(), FileState::Idle);
    assert_eq!(tracker.advance(LOG, 130), Ok(Delta { start: 0, end: 130 }));
}

#[test]
fn only_the_range_in_flight_is_committed_or_released() {
    let mut tracker = OffsetTracker::new();
    let first = tracker.advance(LOG, 100).unwrap();
    assert!(!tracker.commit(LOG, Delta { start: 0, end: 99 }));
    assert!(!tracker.commit(LOG, Delta { start: 1, end: 100 }));
    assert!(!tracker.release(LOG, Delta { start: 0, end: 101 }));
    assert!(!tracker.commit(OTHER, first));
    assert!(!tracker.release(OTHER, first));
    assert_eq!(tracker.offset_of(LOG), Some(0));
    assert!(tracker.commit(LOG, first));
    assert!(!tracker.commit(LOG, first));
    assert!(!tracker.release(LOG, first));
    assert_eq!(tracker.offset_of(LOG), Some(100));
}

#[test]
fn a_later_range_replaces_the_one_in_flight() {
    let mut tracker = OffsetTracker::new();
    let first = tracker.advance(LOG, 100).unwrap();
    let second = tracker.advance(LOG, 150).unwrap();
    assert_eq!(second, Delta { start: 0, end: 150 });
    assert!(!tracker.commit(LOG, first));
    assert_eq!(tracker.offset_of(LOG), Some(0));
    assert!(tracker.commit(LOG, second));
    assert_eq!(tracker.offset_of(LOG), Some(150));
}

#[test]
fn paths_are_tracked_apart() {
    let mut tracker = OffsetTracker::new();
    let a = tracker.advance(LOG, 10).unwrap();
    let b = tracker.advance(OTHER, 20).unwrap();
    assert_eq!(tracker.len(), 2);
    assert!(tracker.commit(OTHER, b));
    assert_eq!(tracker.offset_of(LOG), Some(0));
    assert_eq!(tracker.offset_of(OTHER), Some(20));
    assert!(tracker.commit(LOG, a));
    assert_eq!(tracker.offset_of(LOG), Some(10));
    tracker.advance(LOG, 30).unwrap();
    assert_eq!(tracker.len(), 2);
    assert!(!tracker.is_empty());
}

#[test]
fn undecodable_names_are_never_tracked() {
    let mut tracker = OffsetTracker::new();
    assert_eq!(tracker.advance("/logs/build.out", 10), Err(DecodeError::WrongPartCount));
    assert_eq!(
        tracker.advance("/logs/build.x.ad7e47a1-15a1-44f8-b4cb-924b02e1cc89.out", 10),
        Err(DecodeError::InvalidRerunId)
    );
    assert_eq!(tracker.advance("/logs/build.3.nope.out", 10), Err(DecodeError::InvalidUuid));
    assert!(tracker.is_empty());
    assert_eq!(tracker.len(), 0);
    assert!(tracker.get("/logs/build.out").is_none());
}

#[test]
fn watching_changes_nothing_of_a_watched_file() {
    let mut tracker = OffsetTracker::new();
    let identity = tracker.watch(LOG).unwrap();
    assert_eq!(identity.task_name(), "build");
    assert_eq!(identity.rerun_id(), 3);
    assert_eq!(tracker.offset_of(LOG), Some(0));
    let delta = tracker.advance(LOG, 10).unwrap();
    assert_eq!(tracker.watch(LOG).unwrap(), identity);
    assert_eq!(tracker.get(LOG).unwrap().state(), FileState::InFlight(delta));
    tracker.commit(LOG, delta);
    tracker.watch(LOG).unwrap();
    assert_eq!(tracker.offset_of(LOG), Some(10));
    assert_eq!(tracker.len(), 1);
    assert_eq!(tracker.watch("/logs/a.out"), Err(DecodeError::WrongPartCount));
    assert_eq!(tracker.len(), 1);
}

#[test]
fn watched_file_on_its_own() {
    let mut file = WatchedFile::open(LOG).unwrap();
    assert_eq!(file.path(), LOG);
    assert_eq!(file.identity().uuid(), "ad7e47a1-15a1-44f8-b4cb-924b02e1cc89");
    assert_eq!(file.last_shipped_offset(), 0);
    assert_eq!(file.state(), FileState::Idle);
    let delta = file.advance(64);
    assert_eq!(delta, Delta { start: 0, end: 64 });
    assert_eq!(file.state(), FileState::InFlight(delta));
    assert!(file.commit(delta));
    assert_eq!(file.last_shipped_offset(), 64);
    let next = file.advance(u64::MAX);
    assert_eq!(next, Delta { start: 64, end: u64::MAX });
    assert!(file.release(next));
    assert!(!file.release(next));
    assert_eq!(file.last_shipped_offset(), 64);
    assert_eq!(WatchedFile::open("/logs/a.b").unwrap_err(), DecodeError::WrongPartCount);
}
