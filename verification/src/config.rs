//! What the shipper must be told before it starts, and which failures stop it.

use vstd::prelude::*;

verus! {

/// How long uploads in flight may go on after the shipper was told to stop,
/// in milliseconds. What is still queued then is dropped.
pub const SHUTDOWN_GRACE_MS: u64 = 10_000;

/// Which required setting is absent.
#[derive(Clone, Copy, Debug, PartialEq, Eq, Structural)]
pub enum ConfigError {
    /// No endpoint URL was given.
    MissingEndpoint,
    /// No directory to watch was given.
    MissingDirectory,
}

/// Where to send logs, and where to look for them.
#[derive(Clone, Debug, PartialEq, Eq)]
pub struct Config {
    /// The URL of the collection endpoint.
    pub endpoint_url: String,
    /// The directory whose files are shipped. Its subdirectories are not.
    pub watch_dir: String,
}

impl Config {
    /// The configuration made of the two settings, both of which are
    /// required. Of two absent settings the endpoint is reported.
    pub fn new(endpoint_url: Option<String>, watch_dir: Option<String>) -> (r: Result<
        Config,
        ConfigError,
    >)
        ensures
            match r {
                Ok(config) => {
                    &&& endpoint_url == Some(config.endpoint_url)
                    &&& watch_dir == Some(config.watch_dir)
                },
                Err(ConfigError::MissingEndpoint) => endpoint_url is None,
                Err(ConfigError::MissingDirectory) => endpoint_url is Some && watch_dir is None,
            },
    {
        match endpoint_url {
            None => Err(ConfigError::MissingEndpoint),
            Some(endpoint_url) => match watch_dir {
                None => Err(ConfigError::MissingDirectory),
                Some(watch_dir) => Ok(Config { endpoint_url, watch_dir }),
            },
        }
    }
}

/// The kinds of failure that the shipper meets.
#[derive(Clone, Copy, Debug, PartialEq, Eq, Structural)]
pub enum ErrorKind {
    /// A required setting is absent.
    Config,
    /// The watch on the directory could not be set up.
    WatchInit,
    /// The watch mechanism reported an error while watching.
    WatchRuntime,
    /// A file's name carries no identity.
    Decode,
    /// A file vanished, could not be read, or did not hold what was expected.
    Read,
    /// An upload failed for a reason that may pass.
    TransientUpload,
    /// An upload was rejected for good.
    PermanentUpload,
}

/// Whether a failure of this kind ends the process. Only one that keeps the
/// shipper from starting does; a failure in the steady state concerns one
/// file or one upload and never the others.
pub fn is_fatal(kind: ErrorKind) -> (fatal: bool)
    ensures
        fatal == (kind == ErrorKind::Config || kind == ErrorKind::WatchInit),
{
    match kind {
        ErrorKind::Config => true,
        ErrorKind::WatchInit => true,
        _ => false,
    }
}

} // verus!
