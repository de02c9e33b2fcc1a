//! How much of each log file has been shipped, and which bytes come next.

use crate::codec::{base, decode_spec, DecodeError, FilenameCodec, IdentityModel, TaskIdentity};
use crate::text::file_name;
use vstd::prelude::*;

verus! {

/// The bytes of a file from `start` up to but not including `end`.
#[derive(Clone, Copy, Debug, PartialEq, Eq, Structural)]
pub struct Delta {
    pub start: u64,
    pub end: u64,
}

impl Delta {
    /// How many bytes the range holds.
    pub open spec fn size(self) -> nat {
        if self.end >= self.start {
            (self.end - self.start) as nat
        } else {
            0
        }
    }

    /// How many bytes the range holds.
    pub fn len(&self) -> (n: u64)
        ensures
            n == self.size(),
    {
        if self.end >= self.start {
            self.end - self.start
        } else {
            0
        }
    }

    /// Whether the range holds no byte, so that there is nothing to ship.
    pub fn is_empty(&self) -> (b: bool)
        ensures
            b == (self.size() == 0),
    {
        self.end <= self.start
    }
}

/// Whether bytes of a file are on their way to the endpoint.
#[derive(Clone, Copy, Debug, PartialEq, Eq, Structural)]
pub enum FileState {
    /// Nothing is being shipped.
    Idle,
    /// The range was handed out for shipping and is neither committed nor
    /// given up yet.
    InFlight(Delta),
}

/// What a `WatchedFile` holds, as mathematical values.
pub struct FileModel {
    pub path: Seq<char>,
    pub identity: IdentityModel,
    pub offset: u64,
    pub state: FileState,
}

impl FileModel {
    /// What holds of every watched file: its identity is the one that its
    /// name carries, and a range in flight is not empty and begins where the
    /// shipped bytes end.
    pub open spec fn consistent(self) -> bool {
        &&& decode_spec(file_name(self.path)) == Ok::<IdentityModel, DecodeError>(self.identity)
        &&& self.state matches FileState::InFlight(d) ==> d.start == self.offset && d.start
            < d.end
    }
}

/// The file at `path` as first seen: nothing shipped, nothing in flight.
pub open spec fn first_sight(path: Seq<char>) -> FileModel {
    FileModel {
        path,
        identity: decode_spec(file_name(path))->Ok_0,
        offset: 0,
        state: FileState::Idle,
    }
}

/// The unshipped bytes of a file of `current_size` bytes of which `offset`
/// are shipped. A file that is shorter than what was shipped was truncated
/// or made anew: all of it is unshipped.
pub open spec fn next_delta(offset: u64, current_size: u64) -> Delta {
    if current_size >= offset {
        Delta { start: offset, end: current_size }
    } else {
        Delta { start: 0, end: current_size }
    }
}

/// The file after its unshipped bytes were handed out at `current_size`.
pub open spec fn advanced(file: FileModel, current_size: u64) -> FileModel {
    let delta = next_delta(file.offset, current_size);
    FileModel {
        offset: delta.start,
        state: if delta.start < delta.end {
            FileState::InFlight(delta)
        } else {
            FileState::Idle
        },
        ..file
    }
}

/// The file after the endpoint acknowledged `delta`. Only the range in
/// flight can be committed; any other leaves the file as it is.
pub open spec fn committed(file: FileModel, delta: Delta) -> FileModel {
    if file.state == FileState::InFlight(delta) {
        FileModel { offset: delta.end, state: FileState::Idle, ..file }
    } else {
        file
    }
}

/// The file after shipping `delta` was given up: the offset stays, and the
/// range is no longer in flight. Only the range in flight can be given up;
/// any other leaves the file as it is.
pub open spec fn released(file: FileModel, delta: Delta) -> FileModel {
    if file.state == FileState::InFlight(delta) {
        FileModel { state: FileState::Idle, ..file }
    } else {
        file
    }
}

/// Handing out, committing and giving up each leave a consistent file consistent.
pub proof fn lemma_steps_keep_consistency(file: FileModel, current_size: u64, delta: Delta)
    requires
        file.consistent(),
    ensures
        advanced(file, current_size).consistent(),
        committed(file, delta).consistent(),
        released(file, delta).consistent(),
{
}

/// A log file under watch, with the count of its bytes that the endpoint has
/// acknowledged.
#[derive(Debug)]
pub struct WatchedFile {
    path: String,
    identity: TaskIdentity,
    last_shipped_offset: u64,
    state: FileState,
}

impl View for WatchedFile {
    type V = FileModel;

    closed spec fn view(&self) -> FileModel {
        FileModel {
            path: self.path@,
            identity: self.identity@,
            offset: self.last_shipped_offset,
            state: self.state,
        }
    }
}

impl WatchedFile {
    #[verifier::type_invariant]
    spec fn well_formed(&self) -> bool {
        self@.consistent()
    }

    /// Begins to watch the file at `path`, if its name carries an identity.
    pub fn open(path: &str) -> (r: Result<WatchedFile, DecodeError>)
        ensures
            match r {
                Ok(file) => decode_spec(file_name(path@)) is Ok && file@ == first_sight(path@),
                Err(e) => decode_spec(file_name(path@)) == Err::<IdentityModel, DecodeError>(e),
            },
    {
        let name = base(path);
        match FilenameCodec::decode(name.as_str()) {
            Ok(identity) => Ok(
                WatchedFile {
                    path: path.to_owned(),
                    identity,
                    last_shipped_offset: 0,
                    state: FileState::Idle,
                },
            ),
            Err(e) => Err(e),
        }
    }

    /// The path under which the file is watched.
    pub fn path(&self) -> (r: &str)
        ensures
            r@ == self@.path,
    {
        self.path.as_str()
    }

    /// Whose log the file is: what its name decodes to.
    pub fn identity(&self) -> (r: &TaskIdentity)
        ensures
            r@ == self@.identity,
            self@.consistent(),
    {
        proof {
            use_type_invariant(self);
        }
        &self.identity
    }

    /// How many bytes from the file's beginning the endpoint has acknowledged.
    pub fn last_shipped_offset(&self) -> (r: u64)
        ensures
            r == self@.offset,
    {
        self.last_shipped_offset
    }

    /// Whether bytes are in flight, and which.
    pub fn state(&self) -> (r: FileState)
        ensures
            r == self@.state,
            self@.consistent(),
    {
        proof {
            use_type_invariant(self);
        }
        self.state
    }

    /// Hands out the bytes that are still unshipped in a file that is now
    /// `current_size` bytes long, and notes them as in flight.
    ///
    /// Where the file has shrunk below what was shipped, the offset goes back
    /// to 0 and the whole file is handed out. Otherwise the offset stays.
    pub fn advance(&mut self, current_size: u64) -> (delta: Delta)
        ensures
            delta == next_delta(old(self)@.offset, current_size),
            final(self)@ == advanced(old(self)@, current_size),
    {
        proof {
            use_type_invariant(&*self);
        }
        let start = if current_size >= self.last_shipped_offset {
            self.last_shipped_offset
        } else {
            0
        };
        let delta = Delta { start, end: current_size };
        self.state = FileState::Idle;
        self.last_shipped_offset = start;
        if start < current_size {
            self.state = FileState::InFlight(delta);
        }
        delta
    }

    /// Records that the endpoint acknowledged `delta`: the offset moves to
    /// the range's end. Says whether it did; it does only for the range that
    /// is in flight.
    pub fn commit(&mut self, delta: Delta) -> (applied: bool)
        ensures
            applied == (old(self)@.state == FileState::InFlight(delta)),
            final(self)@ == committed(old(self)@, delta),
    {
        proof {
            use_type_invariant(&*self);
        }
        match self.state {
            FileState::InFlight(d) => {
                if d.start == delta.start && d.end == delta.end {
                    self.state = FileState::Idle;
                    self.last_shipped_offset = delta.end;
                    true
                } else {
                    false
                }
            },
            FileState::Idle => false,
        }
    }

    /// Gives up shipping `delta`. The offset stays, so the same bytes are
    /// handed out again next time. Says whether anything was given up; it is
    /// only for the range that is in flight.
    pub fn release(&mut self, delta: Delta) -> (applied: bool)
        ensures
            applied == (old(self)@.state == FileState::InFlight(delta)),
            final(self)@ == released(old(self)@, delta),
    {
        proof {
            use_type_invariant(&*self);
        }
        match self.state {
            FileState::InFlight(d) => {
                if d.start == delta.start && d.end == delta.end {
                    self.state = FileState::Idle;
                    true
                } else {
                    false
                }
            },
            FileState::Idle => false,
        }
    }
}

/// Whether position `i` of `files` holds the file watched under `path`.
spec fn holds(files: Seq<WatchedFile>, i: int, path: Seq<char>) -> bool {
    0 <= i < files.len() && files[i]@.path == path
}

/// Whether no two positions hold the same path.
spec fn distinct(files: Seq<WatchedFile>) -> bool {
    forall|i: int, j: int| 0 <= i < j < files.len() ==> files[i]@.path != files[j]@.path
}

/// The files by their paths.
spec fn table(files: Seq<WatchedFile>) -> Map<Seq<char>, FileModel> {
    Map::new(
        |path: Seq<char>| exists|i: int| holds(files, i, path),
        |path: Seq<char>| files[choose|i: int| holds(files, i, path)]@,
    )
}

proof fn lemma_table_at(files: Seq<WatchedFile>, i: int)
    requires
        distinct(files),
        0 <= i < files.len(),
    ensures
        table(files).contains_key(files[i]@.path),
        table(files)[files[i]@.path] == files[i]@,
{
    let path = files[i]@.path;
    assert(holds(files, i, path));
    let j = choose|j: int| holds(files, j, path);
    assert(j == i);
}

proof fn lemma_table_replace(before: Seq<WatchedFile>, after: Seq<WatchedFile>, i: int)
    requires
        distinct(before),
        0 <= i < before.len(),
        after == before.update(i, after[i]),
        after[i]@.path == before[i]@.path,
    ensures
        distinct(after),
        table(after) == table(before).insert(before[i]@.path, after[i]@),
{
    let path = before[i]@.path;
    assert forall|a: int, b: int| 0 <= a < b < after.len() implies after[a]@.path != after[b]@.path by {
        assert(after[a]@.path == before[a]@.path);
        assert(after[b]@.path == before[b]@.path);
    }
    let want = table(before).insert(path, after[i]@);
    assert forall|q: Seq<char>| table(after).contains_key(q) <==> want.contains_key(q) by {
        if table(after).contains_key(q) {
            let j = choose|j: int| holds(after, j, q);
            assert(holds(before, j, q));
        }
        if want.contains_key(q) {
            if q == path {
                assert(holds(after, i, q));
            } else {
                let j = choose|j: int| holds(before, j, q);
                assert(holds(after, j, q));
            }
        }
    }
    assert forall|q: Seq<char>| table(after).contains_key(q) implies table(after)[q] == want[q] by {
        let j = choose|j: int| holds(after, j, q);
        lemma_table_at(after, j);
        if j != i {
            assert(holds(before, j, q));
            lemma_table_at(before, j);
        }
    }
    assert(table(after) =~= want);
}

proof fn lemma_table_push(before: Seq<WatchedFile>, file: WatchedFile)
    requires
        distinct(before),
        forall|i: int| !holds(before, i, file@.path),
    ensures
        distinct(before.push(file)),
        !table(before).contains_key(file@.path),
        table(before.push(file)) == table(before).insert(file@.path, file@),
{
    let after = before.push(file);
    let last = before.len() as int;
    assert forall|a: int, b: int| 0 <= a < b < after.len() implies after[a]@.path != after[b]@.path by {
        if b == last {
            assert(!holds(before, a, file@.path));
        }
    }
    let want = table(before).insert(file@.path, file@);
    assert forall|q: Seq<char>| table(after).contains_key(q) <==> want.contains_key(q) by {
        if table(after).contains_key(q) {
            let j = choose|j: int| holds(after, j, q);
            if j != last {
                assert(holds(before, j, q));
            }
        }
        if want.contains_key(q) {
            if q == file@.path {
                assert(holds(after, last, q));
            } else {
                let j = choose|j: int| holds(before, j, q);
                assert(holds(after, j, q));
            }
        }
    }
    assert forall|q: Seq<char>| table(after).contains_key(q) implies table(after)[q] == want[q] by {
        let j = choose|j: int| holds(after, j, q);
        lemma_table_at(after, j);
        if j != last {
            assert(holds(before, j, q));
            lemma_table_at(before, j);
        }
    }
    assert(table(after) =~= want);
}

/// The table of watched files: for each path one file, with its offset.
#[derive(Debug)]
pub struct OffsetTracker {
    files: Vec<WatchedFile>,
}

impl View for OffsetTracker {
    type V = Map<Seq<char>, FileModel>;

    closed spec fn view(&self) -> Map<Seq<char>, FileModel> {
        table(self.files@)
    }
}

impl OffsetTracker {
    #[verifier::type_invariant]
    spec fn well_formed(&self) -> bool {
        &&& distinct(self.files@)
        &&& forall|i: int| 0 <= i < self.files@.len() ==> (#[trigger] self.files@[i])@.consistent()
    }

    /// What the tracker holds of the file at `path`; `first_sight` of it
    /// where it holds nothing.
    pub open spec fn known(&self, path: Seq<char>) -> FileModel {
        if self@.contains_key(path) {
            self@[path]
        } else {
            first_sight(path)
        }
    }

    /// A tracker that watches no file.
    pub fn new() -> (tracker: Self)
        ensures
            tracker@ == Map::<Seq<char>, FileModel>::empty(),
    {
        let tracker = OffsetTracker { files: Vec::new() };
        assert(tracker@ =~= Map::<Seq<char>, FileModel>::empty());
        tracker
    }

    /// Moves the files out, leaving none, so that the vector can be changed
    /// and put back as a whole.
    fn take_files(&mut self) -> (files: Vec<WatchedFile>)
        ensures
            files@ == old(self).files@,
            final(self).files@.len() == 0,
    {
        let mut files: Vec<WatchedFile> = Vec::new();
        core::mem::swap(&mut self.files, &mut files);
        files
    }

    /// Where the file watched under `path` stands in the table.
    fn find(&self, path: &String) -> (r: Option<usize>)
        ensures
            match r {
                Some(i) => holds(self.files@, i as int, path@),
                None => forall|i: int| !holds(self.files@, i, path@),
            },
    {
        let mut i: usize = 0;
        while i < self.files.len()
            invariant
                i <= self.files@.len(),
                forall|k: int| 0 <= k < i ==> !holds(self.files@, k, path@),
            decreases self.files@.len() - i,
        {
            if self.files[i].path == *path {
                return Some(i);
            }
            i += 1;
        }
        None
    }

    /// The file watched under `path`, if there is one.
    pub fn get(&self, path: &str) -> (r: Option<&WatchedFile>)
        ensures
            match r {
                Some(file) => self@.contains_key(path@) && self@[path@] == file@
                    && file@.path == path@ && file@.consistent(),
                None => !self@.contains_key(path@),
            },
    {
        proof {
            use_type_invariant(self);
        }
        let key = path.to_owned();
        match self.find(&key) {
            Some(i) => {
                proof {
                    lemma_table_at(self.files@, i as int);
                }
                Some(&self.files[i])
            },
            None => None,
        }
    }

    /// How many bytes of the file at `path` are shipped, if it is watched.
    pub fn offset_of(&self, path: &str) -> (r: Option<u64>)
        ensures
            match r {
                Some(offset) => self@.contains_key(path@) && self@[path@].offset == offset,
                None => !self@.contains_key(path@),
            },
    {
        match self.get(path) {
            Some(file) => Some(file.last_shipped_offset()),
            None => None,
        }
    }

    /// Takes the file at `path` under watch, with nothing shipped, unless it
    /// is watched already; then nothing changes. Returns whose log the file
    /// is, or the fault in its name; a file with a fault is not watched.
    pub fn watch(&mut self, path: &str) -> (r: Result<TaskIdentity, DecodeError>)
        ensures
            match r {
                Ok(identity) => {
                    &&& decode_spec(file_name(path@)) == Ok::<IdentityModel, DecodeError>(
                        identity@,
                    )
                    &&& final(self)@ == old(self)@.insert(path@, old(self).known(path@))
                },
                Err(e) => {
                    &&& decode_spec(file_name(path@)) == Err::<IdentityModel, DecodeError>(e)
                    &&& !old(self)@.contains_key(path@)
                    &&& final(self)@ == old(self)@
                },
            },
    {
        proof {
            use_type_invariant(&*self);
        }
        let key = path.to_owned();
        match self.find(&key) {
            Some(i) => {
                proof {
                    lemma_table_at(self.files@, i as int);
                    assert(self@.insert(path@, self@[path@]) == self@);
                }
                Ok(self.files[i].identity().clone())
            },
            None => {
                proof {
                    if self@.contains_key(path@) {
                        let j = choose|j: int| holds(self.files@, j, path@);
                        assert(holds(self.files@, j, path@));
                    }
                }
                match WatchedFile::open(path) {
                    Ok(file) => {
                        let identity = file.identity().clone();
                        proof {
                            lemma_table_push(self.files@, file);
                        }
                        let mut files = self.take_files();
                        files.push(file);
                        self.files = files;
                        Ok(identity)
                    },
                    Err(e) => Err(e),
                }
            },
        }
    }

    /// Hands out the unshipped bytes of the file at `path`, which is now
    /// `current_size` bytes long, and notes them as in flight.
    ///
    /// A path seen for the first time is taken under watch with nothing
    /// shipped, provided that its file name decodes; where it does not, the
    /// fault is returned and nothing changes. No other path is touched.
    pub fn advance(&mut self, path: &str, current_size: u64) -> (r: Result<Delta, DecodeError>)
        ensures
            match r {
                Ok(delta) => {
                    &&& decode_spec(file_name(path@)) is Ok
                    &&& delta == next_delta(old(self).known(path@).offset, current_size)
                    &&& final(self)@ == old(self)@.insert(
                        path@,
                        advanced(old(self).known(path@), current_size),
                    )
                },
                Err(e) => {
                    &&& decode_spec(file_name(path@)) == Err::<IdentityModel, DecodeError>(e)
                    &&& !old(self)@.contains_key(path@)
                    &&& final(self)@ == old(self)@
                },
            },
    {
        proof {
            use_type_invariant(&*self);
        }
        let key = path.to_owned();
        match self.find(&key) {
            Some(i) => {
                let ghost before = self.files@;
                proof {
                    lemma_table_at(before, i as int);
                }
                let mut files = self.take_files();
                let delta = files[i].advance(current_size);
                proof {
                    lemma_table_replace(before, files@, i as int);
                }
                self.files = files;
                Ok(delta)
            },
            None => {
                match WatchedFile::open(path) {
                    Ok(mut file) => {
                        let delta = file.advance(current_size);
                        proof {
                            use_type_invariant(&file);
                            lemma_table_push(self.files@, file);
                        }
                        let mut files = self.take_files();
                        files.push(file);
                        self.files = files;
                        Ok(delta)
                    },
                    Err(e) => {
                        proof {
                            if self@.contains_key(path@) {
                                let j = choose|j: int| holds(self.files@, j, path@);
                                assert(holds(self.files@, j, path@));
                            }
                        }
                        Err(e)
                    },
                }
            },
        }
    }

    /// Records that the endpoint acknowledged the bytes `delta` of the file
    /// at `path`. Says whether the offset moved; it moves, to the range's
    /// end, only where the file is watched and `delta` is the range that was
    /// last handed out for it and is still in flight.
    pub fn commit(&mut self, path: &str, delta: Delta) -> (applied: bool)
        ensures
            applied == (old(self)@.contains_key(path@) && old(self)@[path@].state
                == FileState::InFlight(delta)),
            final(self)@ == if applied {
                old(self)@.insert(path@, committed(old(self)@[path@], delta))
            } else {
                old(self)@
            },
    {
        proof {
            use_type_invariant(&*self);
        }
        let key = path.to_owned();
        match self.find(&key) {
            Some(i) => {
                let ghost before = self.files@;
                proof {
                    lemma_table_at(before, i as int);
                    lemma_steps_keep_consistency(before[i as int]@, 0, delta);
                }
                let mut files = self.take_files();
                let applied = files[i].commit(delta);
                proof {
                    lemma_table_replace(before, files@, i as int);
                    assert(!applied ==> table(before).insert(path@, before[i as int]@) == table(
                        before,
                    ));
                }
                self.files = files;
                applied
            },
            None => {
                proof {
                    if self@.contains_key(path@) {
                        let j = choose|j: int| holds(self.files@, j, path@);
                        assert(holds(self.files@, j, path@));
                    }
                }
                false
            },
        }
    }

    /// Gives up shipping the bytes `delta` of the file at `path`. The offset
    /// stays where it is, so that the same bytes are handed out again at the
    /// file's next change. Says whether anything was given up; it is only
    /// where the file is watched and `delta` is the range in flight.
    pub fn release(&mut self, path: &str, delta: Delta) -> (applied: bool)
        ensures
            applied == (old(self)@.contains_key(path@) && old(self)@[path@].state
                == FileState::InFlight(delta)),
            final(self)@ == if applied {
                old(self)@.insert(path@, released(old(self)@[path@], delta))
            } else {
                old(self)@
            },
    {
        proof {
            use_type_invariant(&*self);
        }
        let key = path.to_owned();
        match self.find(&key) {
            Some(i) => {
                let ghost before = self.files@;
                proof {
                    lemma_table_at(before, i as int);
                    lemma_steps_keep_consistency(before[i as int]@, 0, delta);
                }
                let mut files = self.take_files();
                let applied = files[i].release(delta);
                proof {
                    lemma_table_replace(before, files@, i as int);
                    assert(!applied ==> table(before).insert(path@, before[i as int]@) == table(
                        before,
                    ));
                }
                self.files = files;
                applied
            },
            None => {
                proof {
                    if self@.contains_key(path@) {
                        let j = choose|j: int| holds(self.files@, j, path@);
                        assert(holds(self.files@, j, path@));
                    }
                }
                false
            },
        }
    }

    /// How many files are watched: one for each path, never two.
    pub fn len(&self) -> (n: usize)
        ensures
            self@.dom().finite(),
            n == self@.dom().len(),
    {
        proof {
            use_type_invariant(self);
            lemma_table_len(self.files@);
        }
        self.files.len()
    }

    /// Whether no file is watched.
    pub fn is_empty(&self) -> (b: bool)
        ensures
            b == (self@ == Map::<Seq<char>, FileModel>::empty()),
    {
        proof {
            use_type_invariant(self);
            if self.files@.len() > 0 {
                lemma_table_at(self.files@, 0);
            } else {
                assert(self@ =~= Map::<Seq<char>, FileModel>::empty());
            }
        }
        self.files.len() == 0
    }
}

proof fn lemma_table_len(files: Seq<WatchedFile>)
    requires
        distinct(files),
    ensures
        table(files).dom().finite(),
        table(files).dom().len() == files.len(),
    decreases files.len(),
{
    if files.len() == 0 {
        assert(table(files).dom() =~= Set::<Seq<char>>::empty());
    } else {
        let front = files.drop_last();
        let last = files.last();
        assert(distinct(front));
        lemma_table_len(front);
        assert forall|i: int| !holds(front, i, last@.path) by {
            if holds(front, i, last@.path) {
                assert(files[i]@.path == files[files.len() - 1]@.path);
            }
        }
        lemma_table_push(front, last);
        assert(front.push(last) == files);
        assert(table(files).dom() =~= table(front).dom().insert(last@.path));
    }
}

/// While a file only grows, what is handed out after a commit begins where
/// the committed range ended: two writes are shipped as two ranges that
/// share no byte and together cover what was written.
pub proof fn lemma_growth_ships_each_byte_once(file: FileModel, first: u64, second: u64)
    requires
        file.offset <= first <= second,
    ensures
        ({
            let one = next_delta(file.offset, first);
            let between = committed(advanced(file, first), one);
            let two = next_delta(between.offset, second);
            &&& one == (Delta { start: file.offset, end: first })
            &&& between.offset == first
            &&& two == (Delta { start: first, end: second })
            &&& one.size() + two.size() == second - file.offset
        }),
{
}

/// A file that is shorter than what was shipped of it is handed out whole,
/// its offset goes back to 0, and a commit then sets it to the new length.
pub proof fn lemma_truncation_resends_all(file: FileModel, current_size: u64)
    requires
        current_size < file.offset,
    ensures
        ({
            let all = next_delta(file.offset, current_size);
            &&& all == (Delta { start: 0, end: current_size })
            &&& advanced(file, current_size).offset == 0
            &&& committed(advanced(file, current_size), all).offset == current_size
        }),
{
}

/// Giving up a range leaves the offset where it was before the range was
/// handed out, so the next range begins at the same byte and skips none.
/// Without a commit nothing moves the offset of a file that did not shrink.
pub proof fn lemma_failure_skips_nothing(file: FileModel, current_size: u64, later_size: u64)
    requires
        file.offset <= current_size <= later_size,
    ensures
        ({
            let one = next_delta(file.offset, current_size);
            let between = released(advanced(file, current_size), one);
            &&& advanced(file, current_size).offset == file.offset
            &&& between.offset == file.offset
            &&& between.state == FileState::Idle
            &&& next_delta(between.offset, later_size) == (Delta {
                start: file.offset,
                end: later_size,
            })
        }),
{
}

/// A commit never moves the offset backwards, and moves it at all only for
/// the range in flight.
pub proof fn lemma_commit_only_advances(file: FileModel, delta: Delta)
    requires
        file.consistent(),
    ensures
        committed(file, delta).offset >= file.offset,
        committed(file, delta).offset != file.offset ==> file.state == FileState::InFlight(delta),
{
}

} // verus!
