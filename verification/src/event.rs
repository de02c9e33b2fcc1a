//! Filtering of change notifications: which of them say that a log file was
//! written.

use crate::text::{
    chars_of, ends_with, file_name, file_name_start, find_file_name, span_ends_with, Span,
};
use vstd::prelude::*;

verus! {

/// What happened to the paths that a notification names.
#[derive(Clone, Copy, Debug, PartialEq, Eq, Structural)]
pub enum ChangeKind {
    /// A file or directory came into being.
    Created,
    /// The content of a file changed.
    DataModified,
    /// Only times, permissions, ownership or other metadata changed.
    MetadataModified,
    /// A file or directory was removed.
    Removed,
    /// A file or directory was renamed.
    Renamed,
    /// Anything else: an access, or a change of unknown nature.
    Other,
}

/// A change notification as the watch mechanism delivers it.
#[derive(Clone, Debug, PartialEq, Eq)]
pub struct RawEvent {
    pub kind: ChangeKind,
    pub paths: Vec<String>,
}

/// Whether a change of this kind can have put new bytes into a file.
pub open spec fn carries_new_bytes(kind: ChangeKind) -> bool {
    kind is Created || kind is DataModified
}

/// The path of the log file that the event reports as written, if there is
/// one: the event's single path, where the change carries new bytes and the
/// path's file name ends in `suffix`.
pub open spec fn classify_spec(suffix: Seq<char>, event: RawEvent) -> Option<Seq<char>> {
    if carries_new_bytes(event.kind) && event.paths@.len() == 1 && ends_with(
        file_name(event.paths@[0]@),
        suffix,
    ) {
        Some(event.paths@[0]@)
    } else {
        None
    }
}

/// The suffix of log files, `.out`, as characters.
pub open spec fn log_suffix() -> Seq<char> {
    seq!['.', 'o', 'u', 't']
}

/// Whether the event is a creation or a change of content. Changes of
/// metadata, removals and renames are none.
pub fn is_write_event(event: &RawEvent) -> (b: bool)
    ensures
        b == carries_new_bytes(event.kind),
{
    match event.kind {
        ChangeKind::Created => true,
        ChangeKind::DataModified => true,
        _ => false,
    }
}

/// Picks out the notifications that say that a log file was written.
#[derive(Clone, Debug)]
pub struct EventFilter {
    /// What the name of a log file ends in. Compared character for character,
    /// so case matters.
    pub suffix: String,
}

impl EventFilter {
    /// A filter for files whose names end in `suffix`.
    pub fn new(suffix: &str) -> (filter: Self)
        ensures
            filter.suffix@ == suffix@,
    {
        EventFilter { suffix: suffix.to_owned() }
    }

    /// The filter for log files as task runners name them: `*.out`.
    pub fn log_files() -> (filter: Self)
        ensures
            filter.suffix@ == log_suffix(),
    {
        proof {
            reveal_strlit(".out");
        }
        let filter = EventFilter { suffix: ".out".to_owned() };
        assert(filter.suffix@ == log_suffix());
        filter
    }

    /// Whether the file name of `path` ends in the suffix.
    pub fn accepts_path(&self, path: &str) -> (b: bool)
        ensures
            b == ends_with(file_name(path@), self.suffix@),
    {
        let chars = chars_of(path);
        let suffix = chars_of(self.suffix.as_str());
        let start = find_file_name(chars.as_slice());
        let name = Span { start, end: chars.len() };
        span_ends_with(chars.as_slice(), name, suffix.as_slice())
    }

    /// The path to act on, or `None` where the event is to be dropped.
    ///
    /// Dropped are events of a kind that carries no new bytes, events that
    /// name no path or more than one, and paths whose file name does not end
    /// in the suffix. Nothing is remembered between calls.
    pub fn classify(&self, event: &RawEvent) -> (r: Option<String>)
        ensures
            match r {
                Some(path) => classify_spec(self.suffix@, *event) == Some(path@),
                None => classify_spec(self.suffix@, *event) is None,
            },
    {
        if !is_write_event(event) {
            return None;
        }
        if event.paths.len() != 1 {
            return None;
        }
        let path = &event.paths[0];
        if !self.accepts_path(path.as_str()) {
            return None;
        }
        Some(path.clone())
    }
}

/// What the filter drops and what it lets pass: events that change only
/// metadata, events that name no path or several, and paths whose file name
/// does not end in the suffix are dropped; a creation or a change of content
/// that names one path with the suffix passes, with that path.
pub proof fn lemma_filter(suffix: Seq<char>, event: RawEvent)
    ensures
        event.kind == ChangeKind::MetadataModified ==> classify_spec(suffix, event) is None,
        !carries_new_bytes(event.kind) ==> classify_spec(suffix, event) is None,
        event.paths@.len() != 1 ==> classify_spec(suffix, event) is None,
        event.paths@.len() == 1 && !ends_with(file_name(event.paths@[0]@), suffix)
            ==> classify_spec(suffix, event) is None,
        (event.kind == ChangeKind::Created || event.kind == ChangeKind::DataModified)
            && event.paths@.len() == 1 && ends_with(file_name(event.paths@[0]@), suffix)
            ==> classify_spec(suffix, event) == Some(event.paths@[0]@),
{
}

/// The file name of a path begins behind a slash, or at the path's
/// beginning, and holds no slash.
pub proof fn lemma_file_name_start(p: Seq<char>)
    ensures
        0 <= file_name_start(p) <= p.len(),
        file_name_start(p) > 0 ==> p[file_name_start(p) - 1] == '/',
        forall|i: int| file_name_start(p) <= i < p.len() ==> p[i] != '/',
    decreases p.len(),
{
    if p.len() > 0 && p.last() != '/' {
        let front = p.drop_last();
        lemma_file_name_start(front);
        assert forall|i: int| file_name_start(p) <= i < p.len() implies p[i] != '/' by {
            if i < front.len() {
                assert(p[i] == front[i]);
            }
        }
    }
}

/// For a suffix without a slash it is the same to look at the end of the
/// path and at the end of its file name.
pub proof fn lemma_suffix_of_path(p: Seq<char>, suffix: Seq<char>)
    requires
        !suffix.contains('/'),
    ensures
        ends_with(file_name(p), suffix) == ends_with(p, suffix),
{
    lemma_file_name_start(p);
    let start = file_name_start(p);
    let name = file_name(p);
    if suffix.len() <= name.len() {
        assert(name.subrange(name.len() - suffix.len(), name.len() as int) == p.subrange(
            p.len() - suffix.len(),
            p.len() as int,
        ));
    } else if ends_with(p, suffix) {
        let tail = p.subrange(p.len() - suffix.len(), p.len() as int);
        let at = start - 1 - (p.len() - suffix.len());
        assert(tail[at] == p[start - 1]);
        assert(suffix.contains(suffix[at]));
    }
}

} // verus!
