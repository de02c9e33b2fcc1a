use log_shipper::config::{is_fatal, Config, ConfigError, ErrorKind};

#[test]
fn both_settings_are_required() {
    let url = "http://collector/logs".to_string();
    let dir = "/var/log/tasks".to_string();
    let config = Config::new(Some(url.clone()), Some(dir.clone())).unwrap();
    assert_eq!(config.endpoint_url, url);
    assert_eq!(config.watch_dir, dir);
    assert_eq!(Config::new(None, Some(dir)).unwrap_err(), ConfigError::MissingEndpoint);
    assert_eq!(Config::new(Some(url), None).unwrap_err(), ConfigError::MissingDirectory);
    assert_eq!(Config::new(None, None).unwrap_err(), ConfigError::MissingEndpoint);
}

#[test]
fn only_start_up_failures_are_fatal() {
    assert!(is_fatal(ErrorKind::Config));
    assert!(is_fatal(ErrorKind::WatchInit));
    assert!(!is_fatal(ErrorKind::WatchRuntime));
    assert!(!is_fatal(ErrorKind::Decode));
    assert!(!is_fatal(ErrorKind::Read));
    assert!(!is_fatal(ErrorKind::TransientUpload));
    assert!(!is_fatal(ErrorKind::PermanentUpload));
}
