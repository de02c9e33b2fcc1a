use log_shipper::event::{is_write_event, ChangeKind, EventFilter, RawEvent};

const LOG: &str = "/logs/build.3.ad7e47a1-15a1-44f8-b4cb-924b02e1cc89.out";

fn event(kind: ChangeKind, paths: &[&str]) -> RawEvent {
    RawEvent { kind, paths: paths.iter().map(|p| p.to_string()).collect() }
}

#[test]
fn create_and_data_modify_are_write_events() {
    assert!(is_write_event(&event(ChangeKind::Created, &[LOG])));
    assert!(is_write_event(&event(ChangeKind::DataModified, &[LOG])));
    assert!(!is_write_event(&event(ChangeKind::MetadataModified, &[LOG])));
    assert!(!is_write_event(&event(ChangeKind::Removed, &[LOG])));
    assert!(!is_write_event(&event(ChangeKind::Renamed, &[LOG])));
    assert!(!is_write_event(&event(ChangeKind::Other, &[LOG])));
}

#[test]
fn filter_accepts_create_and_data_modify_on_one_log_file() {
    let filter = EventFilter::log_files();
    assert_eq!(filter.classify(&event(ChangeKind::Created, &[LOG])), Some(LOG.to_string()));
    assert_eq!(filter.classify(&event(ChangeKind::DataModified, &[LOG])), Some(LOG.to_string()));
}

#[test]
fn filter_drops_events_without_new_bytes() {
    let filter = EventFilter::log_files();
    for kind in [
        ChangeKind::MetadataModified,
        ChangeKind::Removed,
        ChangeKind::Renamed,
        ChangeKind::Other,
    ] {
        assert_eq!(filter.classify(&event(kind, &[LOG])), None, "{:?}", kind);
    }
}

#[test]
fn filter_drops_events_with_no_path_or_several() {
    let filter = EventFilter::log_files();
    assert_eq!(filter.classify(&event(ChangeKind::Created, &[])), None);
    assert_eq!(filter.classify(&event(ChangeKind::Created, &[LOG, LOG])), None);
    assert_eq!(filter.classify(&event(ChangeKind::DataModified, &[LOG, "/logs/b.out"])), None);
}

#[test]
fn filter_drops_paths_without_the_suffix() {
    let filter = EventFilter::log_files();
    for path in ["/logs/build.log", "/logs/build.OUT", "/logs/build.out.tmp", "/logs/out", "", "/logs.out/x"] {
        assert_eq!(filter.classify(&event(ChangeKind::Created, &[path])), None, "{:?}", path);
    }
    assert_eq!(
        filter.classify(&event(ChangeKind::Created, &["/logs/.out"])),
        Some("/logs/.out".to_string())
    );
}

#[test]
fn filter_suffix_is_configurable_and_case_sensitive() {
    let filter = EventFilter::new(".LOG");
    assert_eq!(filter.suffix, ".LOG");
    assert!(filter.accepts_path("/x/a.LOG"));
    assert!(!filter.accepts_path("/x/a.log"));
    assert!(!filter.accepts_path("/x/a.out"));
    assert_eq!(EventFilter::log_files().suffix, ".out");
}

#[test]
fn suffix_is_sought_in_the_file_name_only() {
    let filter = EventFilter::new("s/a.out");
    assert!(!filter.accepts_path("/logs/a.out"));
    let any = EventFilter::new("");
    assert!(any.accepts_path("/logs/"));
    assert!(any.accepts_path(""));
}
