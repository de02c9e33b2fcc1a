//! Decision core of a directory-watching log shipper.
//!
//! Task runners write append-only files whose names carry a task name, a
//! rerun number and an instance UUID. This crate decides, for each change
//! notification, whether it names a log file, whose log it is, which bytes of
//! it are still unshipped, and what to do with the answer of the collection
//! endpoint. Watching the directory, reading files and sending requests are
//! left to the caller; every function here is a pure step from values to
//! values.
//!
//! The data flows through the modules in this order: `event` filters the
//! notifications, `codec` decodes file names, `offset` keeps the shipped
//! length of each file, `handler` readies the bytes read, `upload` follows
//! the attempts to send them, and `dispatch` ties the steps together.

pub mod codec;
pub mod config;
pub mod dispatch;
pub mod event;
pub mod handler;
pub mod offset;
pub mod text;
pub mod upload;

pub use codec::{base, is_all_alphanumeric, is_valid_uuid, DecodeError, FilenameCodec, TaskIdentity};
pub use config::{is_fatal, Config, ConfigError, ErrorKind, SHUTDOWN_GRACE_MS};
pub use dispatch::{Dispatch, Dispatcher};
pub use event::{is_write_event, ChangeKind, EventFilter, RawEvent};
pub use handler::{FileHandler, HandlerError, Log, ReadError};
pub use offset::{Delta, FileState, OffsetTracker, WatchedFile};
pub use upload::{
    classify, classify_status, Outcome, Phase, RetryPolicy, SendResult, Step, UploadAttempt,
};
