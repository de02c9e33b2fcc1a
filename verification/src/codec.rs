//! Structured file names: `<task_name>.<rerun_id>.<uuid>.<extension>`.
//!
//! A log file says whose log it is in its name alone. `FilenameCodec::decode`
//! reads that identity; `decode_spec` says what it reads.

use crate::text::{
    all_alnum, all_digits, char_is_digit, chars_of, ends_with, file_name, find_file_name, is_alnum,
    is_digit, join, lemma_join_split, lemma_split_free, lemma_split_join, lemma_split_last,
    lemma_split_nonempty, occurrences, span_all_alnum, split, split_spans, Span,
};
use vstd::prelude::*;
use vstd::string::StrSliceExecFns;

verus! {

/// Why a file name carries no identity.
#[derive(Clone, Copy, Debug, PartialEq, Eq, Structural)]
pub enum DecodeError {
    /// The name does not consist of exactly four dot-separated parts.
    WrongPartCount,
    /// The second part is not a decimal number that fits in 32 bits.
    InvalidRerunId,
    /// The third part is not a canonical UUID.
    InvalidUuid,
}

/// The number a decimal digit stands for; 0 for any other character.
pub open spec fn digit_value(c: char) -> nat {
    if is_digit(c) {
        (c as u32 - '0' as u32) as nat
    } else {
        0
    }
}

/// The number that a run of decimal digits denotes, most significant digit first.
pub open spec fn decimal_value(s: Seq<char>) -> nat
    decreases s.len(),
{
    if s.len() == 0 {
        0
    } else {
        decimal_value(s.drop_last()) * 10 + digit_value(s.last())
    }
}

/// The digits of a rerun number as written: the text without one leading `+`.
pub open spec fn unsigned_digits(s: Seq<char>) -> Seq<char> {
    if s.len() > 0 && s[0] == '+' {
        s.drop_first()
    } else {
        s
    }
}

/// The rerun number that `s` denotes: one or more decimal digits, with an
/// optional `+` in front, whose value fits in 32 bits. Anything else denotes none.
pub open spec fn parse_rerun_id(s: Seq<char>) -> Option<u32> {
    let digits = unsigned_digits(s);
    if digits.len() > 0 && all_digits(digits) && decimal_value(digits) <= u32::MAX {
        Some(decimal_value(digits) as u32)
    } else {
        None
    }
}

/// How many characters the group at position `g` of a canonical UUID has.
pub open spec fn group_len(g: int) -> nat {
    if g == 0 {
        8
    } else if g == 4 {
        12
    } else {
        4
    }
}

/// The canonical shape of a UUID: 36 characters in five hyphen-separated
/// groups of 8, 4, 4, 4 and 12 alphanumeric characters.
pub open spec fn is_canonical_uuid(u: Seq<char>) -> bool {
    let groups = split(u, '-');
    &&& u.len() == 36
    &&& groups.len() == 5
    &&& forall|g: int|
        0 <= g < 5 ==> (#[trigger] groups[g]).len() == group_len(g) && all_alnum(groups[g])
}

/// What a `TaskIdentity` holds, as mathematical values.
pub struct IdentityModel {
    pub task_name: Seq<char>,
    pub rerun_id: u32,
    pub uuid: Seq<char>,
}

/// What a file name decodes to.
pub open spec fn decode_spec(filename: Seq<char>) -> Result<IdentityModel, DecodeError> {
    let parts = split(filename, '.');
    if parts.len() != 4 {
        Err(DecodeError::WrongPartCount)
    } else if parse_rerun_id(parts[1]) is None {
        Err(DecodeError::InvalidRerunId)
    } else if !is_canonical_uuid(parts[2]) {
        Err(DecodeError::InvalidUuid)
    } else {
        Ok(
            IdentityModel {
                task_name: parts[0],
                rerun_id: parse_rerun_id(parts[1]).unwrap(),
                uuid: parts[2],
            },
        )
    }
}

/// Whose log a file is: the task, which of its reruns, and the instance.
///
/// A value exists only as the result of decoding a file name, and is never
/// changed afterwards.
#[derive(Debug, PartialEq, Eq)]
pub struct TaskIdentity {
    task_name: String,
    rerun_id: u32,
    uuid: String,
}

impl View for TaskIdentity {
    type V = IdentityModel;

    closed spec fn view(&self) -> IdentityModel {
        IdentityModel { task_name: self.task_name@, rerun_id: self.rerun_id, uuid: self.uuid@ }
    }
}

impl Clone for TaskIdentity {
    fn clone(&self) -> (r: Self)
        ensures
            r@ == self@,
    {
        proof {
            use_type_invariant(self);
        }
        TaskIdentity {
            task_name: self.task_name.clone(),
            rerun_id: self.rerun_id,
            uuid: self.uuid.clone(),
        }
    }
}

impl TaskIdentity {
    #[verifier::type_invariant]
    spec fn well_formed(&self) -> bool {
        &&& is_canonical_uuid(self.uuid@)
        &&& !self.task_name@.contains('.')
    }

    /// The task's name: free of dots, otherwise unrestricted.
    pub fn task_name(&self) -> (r: &str)
        ensures
            r@ == self@.task_name,
            !r@.contains('.'),
    {
        proof {
            use_type_invariant(self);
        }
        self.task_name.as_str()
    }

    /// Which execution of the task this is.
    pub fn rerun_id(&self) -> (r: u32)
        ensures
            r == self@.rerun_id,
    {
        self.rerun_id
    }

    /// The instance identifier, always of canonical shape.
    pub fn uuid(&self) -> (r: &str)
        ensures
            r@ == self@.uuid,
            is_canonical_uuid(r@),
    {
        proof {
            use_type_invariant(self);
        }
        self.uuid.as_str()
    }
}

/// A prefix of a run of digits denotes no more than the run.
pub proof fn lemma_decimal_value_grows(s: Seq<char>, n: int)
    requires
        0 <= n <= s.len(),
    ensures
        decimal_value(s.take(n)) <= decimal_value(s),
    decreases s.len() - n,
{
    if n == s.len() {
        assert(s.take(n) == s);
    } else {
        lemma_decimal_value_grows(s, n + 1);
        assert(s.take(n + 1).drop_last() == s.take(n));
    }
}

/// The rerun number written under `span`, if it is one.
fn parse_rerun_span(s: &[char], span: Span) -> (r: Option<u32>)
    requires
        span.fits(s@.len()),
    ensures
        r == parse_rerun_id(span.of(s@)),
{
    let ghost text = span.of(s@);
    let mut i: usize = span.start;
    if i < span.end && s[i] == '+' {
        i += 1;
    }
    let first: usize = i;
    let ghost digits = s@.subrange(first as int, span.end as int);
    proof {
        assert(text.len() > 0 ==> text[0] == s@[span.start as int]);
        assert(digits == unsigned_digits(text));
    }
    if i == span.end {
        return None;
    }
    let mut acc: u32 = 0;
    while i < span.end
        invariant
            span.fits(s@.len()),
            span.start <= first <= i <= span.end,
            digits == s@.subrange(first as int, span.end as int),
            digits == unsigned_digits(span.of(s@)),
            all_digits(digits.take(i - first)),
            acc == decimal_value(digits.take(i - first)),
        decreases span.end - i,
    {
        let c = s[i];
        let ghost seen = digits.take(i - first);
        let ghost next = digits.take(i + 1 - first);
        proof {
            assert(next.drop_last() == seen);
            assert(next.last() == c);
            assert(digits[i - first] == c);
        }
        if !char_is_digit(c) {
            return None;
        }
        let d: u32 = c as u32 - '0' as u32;
        proof {
            assert(decimal_value(next) == acc * 10 + d);
        }
        if acc > (u32::MAX - d) / 10 {
            proof {
                lemma_decimal_value_grows(digits, i + 1 - first);
            }
            return None;
        }
        acc = acc * 10 + d;
        i += 1;
    }
    proof {
        assert(digits.take(span.end - first) == digits);
    }
    Some(acc)
}

/// Whether the characters under `span` form a canonical UUID.
fn uuid_span_ok(s: &[char], span: Span) -> (b: bool)
    requires
        span.fits(s@.len()),
    ensures
        b == is_canonical_uuid(span.of(s@)),
{
    if span.end - span.start != 36 {
        return false;
    }
    let groups = split_spans(s, span, '-');
    if groups.len() != 5 {
        return false;
    }
    let mut g: usize = 0;
    while g < 5
        invariant
            span.fits(s@.len()),
            g <= 5,
            groups@.len() == 5,
            groups@.len() == split(span.of(s@), '-').len(),
            forall|k: int|
                0 <= k < 5 ==> {
                    &&& (#[trigger] groups@[k]).fits(s@.len())
                    &&& groups@[k].of(s@) == split(span.of(s@), '-')[k]
                },
            forall|k: int|
                0 <= k < g ==> {
                    &&& (#[trigger] split(span.of(s@), '-')[k]).len() == group_len(k)
                    &&& all_alnum(split(span.of(s@), '-')[k])
                },
        decreases 5 - g,
    {
        let group = groups[g];
        let want: usize = if g == 0 {
            8
        } else if g == 4 {
            12
        } else {
            4
        };
        assert(group.of(s@) == split(span.of(s@), '-')[g as int]);
        if group.end - group.start != want || !span_all_alnum(s, group) {
            return false;
        }
        g += 1;
    }
    true
}

/// Whether every character of `s` is a letter or a digit.
pub fn is_all_alphanumeric(s: &str) -> (b: bool)
    ensures
        b == all_alnum(s@),
{
    let chars = chars_of(s);
    let whole = Span { start: 0, end: chars.len() };
    assert(whole.of(chars@) == s@);
    span_all_alnum(chars.as_slice(), whole)
}

/// Whether `uuid` has the canonical shape, as in
/// `ad7e47a1-15a1-44f8-b4cb-924b02e1cc89`.
pub fn is_valid_uuid(uuid: &str) -> (b: bool)
    ensures
        b == is_canonical_uuid(uuid@),
{
    let chars = chars_of(uuid);
    let whole = Span { start: 0, end: chars.len() };
    assert(whole.of(chars@) == uuid@);
    uuid_span_ok(chars.as_slice(), whole)
}

/// The file name of a path: what follows its last `/`, or the whole path
/// where it has none.
pub fn base(filepath: &str) -> (name: String)
    ensures
        name@ == file_name(filepath@),
{
    let chars = chars_of(filepath);
    let start = find_file_name(chars.as_slice());
    filepath.substring_char(start, chars.len()).to_owned()
}

/// Reads identities out of file names.
pub struct FilenameCodec;

impl FilenameCodec {
    /// Decodes `filename`, which is a bare file name and no path.
    ///
    /// The name must have exactly four dot-separated parts; the second must
    /// be a rerun number and the third a canonical UUID. Neither the task
    /// name nor the extension is examined. Of two faults the earlier part's
    /// is reported.
    pub fn decode(filename: &str) -> (r: Result<TaskIdentity, DecodeError>)
        ensures
            match r {
                Ok(identity) => decode_spec(filename@) == Ok::<IdentityModel, DecodeError>(
                    identity@,
                ),
                Err(e) => decode_spec(filename@) == Err::<IdentityModel, DecodeError>(e),
            },
    {
        let chars = chars_of(filename);
        let whole = Span { start: 0, end: chars.len() };
        assert(whole.of(chars@) == filename@);
        let parts = split_spans(chars.as_slice(), whole, '.');
        if parts.len() != 4 {
            return Err(DecodeError::WrongPartCount);
        }
        let rerun_id = match parse_rerun_span(chars.as_slice(), parts[1]) {
            Some(n) => n,
            None => {
                return Err(DecodeError::InvalidRerunId);
            },
        };
        if !uuid_span_ok(chars.as_slice(), parts[2]) {
            return Err(DecodeError::InvalidUuid);
        }
        let task_name = filename.substring_char(parts[0].start, parts[0].end).to_owned();
        let uuid = filename.substring_char(parts[2].start, parts[2].end).to_owned();
        proof {
            lemma_split_free(filename@, '.');
            let first = split(filename@, '.')[0];
            assert forall|i: int| 0 <= i < first.len() implies first[i] != '.' by {
                assert(split(filename@, '.')[0][i] != '.');
            }
        }
        Ok(TaskIdentity { task_name, rerun_id, uuid })
    }
}

/// Whether a hyphen stands at position `i` of a canonical UUID.
pub open spec fn is_hyphen_position(i: int) -> bool {
    i == 8 || i == 13 || i == 18 || i == 23
}

/// The canonical shape, position by position: 36 characters, a hyphen at each
/// of the four group boundaries, an alphanumeric character everywhere else.
pub open spec fn has_uuid_layout(u: Seq<char>) -> bool {
    &&& u.len() == 36
    &&& forall|i: int|
        0 <= i < 36 ==> if is_hyphen_position(i) {
            (#[trigger] u[i]) == '-'
        } else {
            is_alnum(u[i])
        }
}

/// The five groups of a 36-character sequence, cut at the hyphen positions.
spec fn groups_by_position(u: Seq<char>) -> Seq<Seq<char>> {
    seq![
        u.subrange(0, 8),
        u.subrange(9, 13),
        u.subrange(14, 18),
        u.subrange(19, 23),
        u.subrange(24, 36),
    ]
}

proof fn lemma_join_five(p: Seq<Seq<char>>, sep: char)
    requires
        p.len() == 5,
    ensures
        join(p, sep) == p[0] + seq![sep] + p[1] + seq![sep] + p[2] + seq![sep] + p[3] + seq![sep]
            + p[4],
{
    let p4 = p.drop_last();
    let p3 = p4.drop_last();
    let p2 = p3.drop_last();
    let p1 = p2.drop_last();
    assert(join(p1, sep) == p[0]);
    assert(join(p2, sep) == join(p1, sep) + seq![sep] + p[1]);
    assert(join(p3, sep) == join(p2, sep) + seq![sep] + p[2]);
    assert(join(p4, sep) == join(p3, sep) + seq![sep] + p[3]);
    assert(join(p, sep) == join(p4, sep) + seq![sep] + p[4]);
}

/// Grouping by hyphens and checking position by position describe the same
/// strings: a string is a canonical UUID exactly when it has the layout.
pub proof fn lemma_canonical_uuid_layout(u: Seq<char>)
    ensures
        is_canonical_uuid(u) <==> has_uuid_layout(u),
{
    let groups = split(u, '-');
    if is_canonical_uuid(u) {
        lemma_join_split(u, '-');
        lemma_join_five(groups, '-');
        let hyphen = seq!['-'];
        let glued = groups[0] + hyphen + groups[1] + hyphen + groups[2] + hyphen + groups[3]
            + hyphen + groups[4];
        assert(u == glued);
        assert forall|i: int| 0 <= i < 36 implies if is_hyphen_position(i) {
            (#[trigger] u[i]) == '-'
        } else {
            is_alnum(u[i])
        } by {
            assert(all_alnum(groups[0]) && all_alnum(groups[1]) && all_alnum(groups[2])
                && all_alnum(groups[3]) && all_alnum(groups[4]));
            if i < 8 {
                assert(glued[i] == groups[0][i]);
            } else if i == 8 {
            } else if i < 13 {
                assert(glued[i] == groups[1][i - 9]);
            } else if i == 13 {
            } else if i < 18 {
                assert(glued[i] == groups[2][i - 14]);
            } else if i == 18 {
            } else if i < 23 {
                assert(glued[i] == groups[3][i - 19]);
            } else if i == 23 {
            } else {
                assert(glued[i] == groups[4][i - 24]);
            }
        }
    }
    if has_uuid_layout(u) {
        let cut = groups_by_position(u);
        assert forall|k: int, i: int| 0 <= k < cut.len() && 0 <= i < cut[k].len() implies (
        #[trigger] cut[k][i]) != '-' by {
            let at = if k == 0 {
                i
            } else if k == 1 {
                9 + i
            } else if k == 2 {
                14 + i
            } else if k == 3 {
                19 + i
            } else {
                24 + i
            };
            assert(cut[k][i] == u[at]);
            assert(is_alnum(u[at]));
        }
        lemma_join_five(cut, '-');
        let hyphen = seq!['-'];
        assert(u == cut[0] + hyphen + cut[1] + hyphen + cut[2] + hyphen + cut[3] + hyphen
            + cut[4]) by {
            assert(u[8] == '-' && u[13] == '-' && u[18] == '-' && u[23] == '-');
        }
        lemma_split_join(cut, '-');
        assert(groups == cut);
        assert forall|g: int| 0 <= g < 5 implies (#[trigger] groups[g]).len() == group_len(g)
            && all_alnum(groups[g]) by {
            assert forall|i: int| 0 <= i < groups[g].len() implies is_alnum(
                #[trigger] groups[g][i],
            ) by {
                let at = if g == 0 {
                    i
                } else if g == 1 {
                    9 + i
                } else if g == 2 {
                    14 + i
                } else if g == 3 {
                    19 + i
                } else {
                    24 + i
                };
                assert(groups[g][i] == u[at]);
                assert(is_alnum(u[at]));
            }
        }
    }
}

/// Every way of missing the canonical shape is refused: a length other than
/// 36, a character other than a hyphen at a group boundary, and a character
/// that is not alphanumeric inside a group.
pub proof fn lemma_uuid_faults(u: Seq<char>, i: int)
    ensures
        u.len() != 36 ==> !is_canonical_uuid(u),
        0 <= i < u.len() && is_hyphen_position(i) && u[i] != '-' ==> !is_canonical_uuid(u),
        0 <= i < u.len() && !is_hyphen_position(i) && !is_alnum(u[i]) ==> !is_canonical_uuid(u),
{
    lemma_canonical_uuid_layout(u);
}

/// The file name `<task>.<rerun>.<uuid>.<extension>`.
pub open spec fn log_file_name(
    task: Seq<char>,
    rerun: Seq<char>,
    uuid: Seq<char>,
    extension: Seq<char>,
) -> Seq<char> {
    task + seq!['.'] + rerun + seq!['.'] + uuid + seq!['.'] + extension
}

proof fn lemma_split_log_file_name(
    task: Seq<char>,
    rerun: Seq<char>,
    uuid: Seq<char>,
    extension: Seq<char>,
)
    requires
        !task.contains('.'),
        !rerun.contains('.'),
        !uuid.contains('.'),
        !extension.contains('.'),
    ensures
        split(log_file_name(task, rerun, uuid, extension), '.') == seq![
            task,
            rerun,
            uuid,
            extension,
        ],
{
    let parts = seq![task, rerun, uuid, extension];
    let p3 = parts.drop_last();
    let p2 = p3.drop_last();
    let p1 = p2.drop_last();
    assert(join(p1, '.') == task);
    assert(join(p2, '.') == join(p1, '.') + seq!['.'] + rerun);
    assert(join(p3, '.') == join(p2, '.') + seq!['.'] + uuid);
    assert(join(parts, '.') == join(p3, '.') + seq!['.'] + extension);
    assert forall|k: int, i: int| 0 <= k < parts.len() && 0 <= i < parts[k].len() implies (
    #[trigger] parts[k][i]) != '.' by {
        assert(parts[k].contains(parts[k][i]));
    }
    lemma_split_join(parts, '.');
}

/// A name put together from a dot-free task name, a run of digits whose value
/// fits in 32 bits, a canonical UUID and a dot-free extension, `out` among
/// them, decodes to exactly that task name, that number and that UUID.
pub proof fn lemma_decode_reads_parts(
    task: Seq<char>,
    digits: Seq<char>,
    uuid: Seq<char>,
    extension: Seq<char>,
)
    requires
        !task.contains('.'),
        digits.len() > 0,
        all_digits(digits),
        decimal_value(digits) <= u32::MAX,
        is_canonical_uuid(uuid),
        !extension.contains('.'),
    ensures
        decode_spec(log_file_name(task, digits, uuid, extension)) == Ok::<
            IdentityModel,
            DecodeError,
        >(IdentityModel { task_name: task, rerun_id: decimal_value(digits) as u32, uuid }),
{
    lemma_canonical_uuid_layout(uuid);
    assert(!uuid.contains('.')) by {
        if uuid.contains('.') {
            let i = choose|i: int| 0 <= i < uuid.len() && uuid[i] == '.';
            assert(if is_hyphen_position(i) {
                uuid[i] == '-'
            } else {
                is_alnum(uuid[i])
            });
        }
    }
    assert(!digits.contains('.')) by {
        if digits.contains('.') {
            let i = choose|i: int| 0 <= i < digits.len() && digits[i] == '.';
            assert(is_digit(digits[i]));
        }
    }
    assert(is_digit(digits[0]));
    assert(unsigned_digits(digits) == digits);
    lemma_split_log_file_name(task, digits, uuid, extension);
}

/// A name that decodes is put together from its four parts: the task name
/// and the UUID of the identity, with the rerun number and the extension as
/// written, and dots between them.
pub proof fn lemma_decoded_name(filename: Seq<char>)
    requires
        decode_spec(filename) is Ok,
    ensures
        ({
            let parts = split(filename, '.');
            let identity = decode_spec(filename)->Ok_0;
            &&& filename == log_file_name(identity.task_name, parts[1], identity.uuid, parts[3])
            &&& parse_rerun_id(parts[1]) == Some(identity.rerun_id)
            &&& !identity.task_name.contains('.')
            &&& is_canonical_uuid(identity.uuid)
        }),
{
    let parts = split(filename, '.');
    lemma_join_split(filename, '.');
    lemma_split_free(filename, '.');
    let p3 = parts.drop_last();
    let p2 = p3.drop_last();
    let p1 = p2.drop_last();
    assert(join(p1, '.') == parts[0]);
    assert(join(p2, '.') == join(p1, '.') + seq!['.'] + parts[1]);
    assert(join(p3, '.') == join(p2, '.') + seq!['.'] + parts[2]);
    assert(join(parts, '.') == join(p3, '.') + seq!['.'] + parts[3]);
    if parts[0].contains('.') {
        let i = choose|i: int| 0 <= i < parts[0].len() && parts[0][i] == '.';
        assert(parts[0][i] != '.');
    }
}

/// Decoding fails for the number of parts exactly when the name does not hold
/// three dots, whatever else it holds.
pub proof fn lemma_part_count(filename: Seq<char>)
    ensures
        split(filename, '.').len() == occurrences(filename, '.') + 1,
        occurrences(filename, '.') != 3 <==> decode_spec(filename) == Err::<
            IdentityModel,
            DecodeError,
        >(DecodeError::WrongPartCount),
{
    lemma_split_nonempty(filename, '.');
}

/// In a name of four parts with a sound rerun number, any third part that is
/// not a canonical UUID fails the decoding as an invalid UUID.
pub proof fn lemma_decode_refuses_uuid(
    task: Seq<char>,
    rerun: Seq<char>,
    uuid: Seq<char>,
    extension: Seq<char>,
)
    requires
        !task.contains('.'),
        !rerun.contains('.'),
        !uuid.contains('.'),
        !extension.contains('.'),
        parse_rerun_id(rerun) is Some,
        !is_canonical_uuid(uuid),
    ensures
        decode_spec(log_file_name(task, rerun, uuid, extension)) == Err::<
            IdentityModel,
            DecodeError,
        >(DecodeError::InvalidUuid),
{
    lemma_split_log_file_name(task, rerun, uuid, extension);
}

/// A name of four parts that ends in `.out` has `out` as its last part: of
/// the files that are taken for log files, those that decode have exactly
/// that extension.
pub proof fn lemma_extension_of_log_file(filename: Seq<char>)
    requires
        ends_with(filename, seq!['.', 'o', 'u', 't']),
        split(filename, '.').len() == 4,
    ensures
        split(filename, '.')[3] == seq!['o', 'u', 't'],
{
    lemma_split_last(filename, '.');
    let suffix = seq!['.', 'o', 'u', 't'];
    let last = split(filename, '.').last();
    let n = filename.len() as int;
    let k = last.len() as int;
    let tail = filename.subrange(n - 4, n);
    assert(tail == suffix);
    assert(filename[n - 4] == tail[0] && filename[n - 3] == tail[1] && filename[n - 2] == tail[2]
        && filename[n - 1] == tail[3]);
    let end = filename.subrange(n - k, n);
    assert(end == last);
    if k >= 4 {
        assert(end[k - 4] == filename[n - 4]);
    }
    assert(k == 3);
    assert(end == seq!['o', 'u', 't']);
}

} // verus!
