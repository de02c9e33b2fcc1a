//! Sequences of characters: the vocabulary in which file names are described.

use vstd::prelude::*;

verus! {

/// Whether `c` is an ASCII decimal digit.
pub open spec fn is_digit(c: char) -> bool {
    '0' <= c && c <= '9'
}

/// What `char::is_alphanumeric` of the standard library says of `c`: whether
/// Unicode counts the character among the letters or the numbers.
pub uninterp spec fn std_alphanumeric(c: char) -> bool;

/// Whether `c` is a letter, of either case, or a digit. Within ASCII these
/// are `a` to `z`, `A` to `Z` and `0` to `9`; beyond ASCII the standard
/// library decides.
pub open spec fn is_alnum(c: char) -> bool {
    if c <= '\u{7f}' {
        is_digit(c) || ('a' <= c && c <= 'z') || ('A' <= c && c <= 'Z')
    } else {
        std_alphanumeric(c)
    }
}

/// Whether every character of `s` is alphanumeric.
pub open spec fn all_alnum(s: Seq<char>) -> bool {
    forall|i: int| 0 <= i < s.len() ==> is_alnum(#[trigger] s[i])
}

/// Whether every character of `s` is a decimal digit.
pub open spec fn all_digits(s: Seq<char>) -> bool {
    forall|i: int| 0 <= i < s.len() ==> is_digit(#[trigger] s[i])
}

/// The parts of `s` between occurrences of `sep`, in order. There is always at
/// least one part; a separator at either end, or two in a row, yield an empty part.
pub open spec fn split(s: Seq<char>, sep: char) -> Seq<Seq<char>>
    decreases s.len(),
{
    if s.len() == 0 {
        seq![Seq::empty()]
    } else {
        let before = split(s.drop_last(), sep);
        if s.last() == sep {
            before.push(Seq::empty())
        } else {
            before.drop_last().push(before.last().push(s.last()))
        }
    }
}

/// The parts written one after another with `sep` between neighbours.
pub open spec fn join(parts: Seq<Seq<char>>, sep: char) -> Seq<char>
    decreases parts.len(),
{
    if parts.len() == 0 {
        Seq::empty()
    } else if parts.len() == 1 {
        parts[0]
    } else {
        join(parts.drop_last(), sep) + seq![sep] + parts.last()
    }
}

/// Whether no part contains `sep`.
pub open spec fn free_of(parts: Seq<Seq<char>>, sep: char) -> bool {
    forall|k: int, i: int|
        0 <= k < parts.len() && 0 <= i < parts[k].len() ==> (#[trigger] parts[k][i]) != sep
}

/// How often `sep` occurs in `s`.
pub open spec fn occurrences(s: Seq<char>, sep: char) -> nat
    decreases s.len(),
{
    if s.len() == 0 {
        0
    } else {
        occurrences(s.drop_last(), sep) + if s.last() == sep { 1nat } else { 0nat }
    }
}

/// Where the file name of the path `p` begins: just behind its last `/`, or at 0.
pub open spec fn file_name_start(p: Seq<char>) -> int
    decreases p.len(),
{
    if p.len() == 0 {
        0
    } else if p.last() == '/' {
        p.len() as int
    } else {
        file_name_start(p.drop_last())
    }
}

/// The file name of the path `p`: what follows its last `/`, or all of it.
pub open spec fn file_name(p: Seq<char>) -> Seq<char> {
    p.subrange(file_name_start(p), p.len() as int)
}

/// Whether `s` ends in `suffix`, character for character.
pub open spec fn ends_with(s: Seq<char>, suffix: Seq<char>) -> bool {
    suffix.len() <= s.len() && s.subrange(s.len() - suffix.len(), s.len() as int) == suffix
}

/// A stretch of a character sequence, from `start` up to but not including `end`.
#[derive(Clone, Copy, Debug, PartialEq, Eq, Structural)]
pub(crate) struct Span {
    pub start: usize,
    pub end: usize,
}

impl Span {
    /// Whether the span lies inside a sequence of length `len`.
    pub(crate) open spec fn fits(self, len: nat) -> bool {
        self.start <= self.end && self.end <= len
    }

    /// The characters of `s` that the span covers.
    pub(crate) open spec fn of(self, s: Seq<char>) -> Seq<char> {
        s.subrange(self.start as int, self.end as int)
    }
}

/// The characters of a string, as a vector.
pub(crate) fn chars_of(s: &str) -> (v: Vec<char>)
    ensures
        v@ == s@,
{
    let mut v: Vec<char> = Vec::new();
    for c in it: s.chars()
        invariant
            it.seq() == s@,
            v@ == s@.take(it.index()),
    {
        v.push(c);
    }
    assert(v@ == s@);
    v
}

/// Decides `is_digit`.
pub(crate) fn char_is_digit(c: char) -> (b: bool)
    ensures
        b == is_digit(c),
{
    c >= '0' && c <= '9'
}

/// `char::is_alphanumeric` of the standard library.
///
/// Assumed of it: that its answer depends on the character alone, which is
/// what gives the answer the name `std_alphanumeric`. Nothing is assumed
/// of what the answer is for any character.
#[verifier::external_body]
fn char_is_alphanumeric(c: char) -> (b: bool)
    ensures
        b == std_alphanumeric(c),
{
    c.is_alphanumeric()
}

/// Decides `is_alnum`.
pub(crate) fn char_is_alnum(c: char) -> (b: bool)
    ensures
        b == is_alnum(c),
{
    if c <= '\u{7f}' {
        char_is_digit(c) || (c >= 'a' && c <= 'z') || (c >= 'A' && c <= 'Z')
    } else {
        char_is_alphanumeric(c)
    }
}

/// Whether every character under `span` is alphanumeric.
pub(crate) fn span_all_alnum(s: &[char], span: Span) -> (b: bool)
    requires
        span.fits(s@.len()),
    ensures
        b == all_alnum(span.of(s@)),
{
    let mut i: usize = span.start;
    while i < span.end
        invariant
            span.fits(s@.len()),
            span.start <= i <= span.end,
            forall|k: int| span.start <= k < i ==> is_alnum(#[trigger] s@[k]),
        decreases span.end - i,
    {
        if !char_is_alnum(s[i]) {
            assert(!is_alnum(span.of(s@)[i - span.start]));
            return false;
        }
        i += 1;
    }
    assert forall|k: int| 0 <= k < span.of(s@).len() implies is_alnum(
        #[trigger] span.of(s@)[k],
    ) by {
        assert(is_alnum(s@[span.start + k]));
    }
    true
}

/// The parts of the stretch `within` of `s` between occurrences of `sep`, each
/// as a span of `s`.
pub(crate) fn split_spans(s: &[char], within: Span, sep: char) -> (spans: Vec<Span>)
    requires
        within.fits(s@.len()),
    ensures
        spans@.len() == split(within.of(s@), sep).len(),
        forall|k: int|
            0 <= k < spans@.len() ==> {
                &&& within.start <= (#[trigger] spans@[k]).start
                &&& spans@[k].start <= spans@[k].end
                &&& spans@[k].end <= within.end
                &&& spans@[k].of(s@) == split(within.of(s@), sep)[k]
            },
{
    let ghost whole = within.of(s@);
    let mut spans: Vec<Span> = Vec::new();
    let mut from: usize = within.start;
    let mut i: usize = within.start;
    while i < within.end
        invariant
            within.fits(s@.len()),
            whole == within.of(s@),
            within.start <= from <= i <= within.end,
            split(whole.take(i - within.start), sep).len() == spans@.len() + 1,
            split(whole.take(i - within.start), sep).last() == s@.subrange(from as int, i as int),
            forall|k: int|
                0 <= k < spans@.len() ==> {
                    &&& within.start <= (#[trigger] spans@[k]).start
                    &&& spans@[k].start <= spans@[k].end
                    &&& spans@[k].end <= within.end
                    &&& spans@[k].of(s@) == split(whole.take(i - within.start), sep)[k]
                },
        decreases within.end - i,
    {
        let ghost seen = whole.take(i - within.start);
        let ghost next = whole.take(i + 1 - within.start);
        proof {
            assert(next.drop_last() == seen);
            assert(next.last() == s@[i as int]);
        }
        if s[i] == sep {
            spans.push(Span { start: from, end: i });
            from = i + 1;
            proof {
                assert(split(next, sep) == split(seen, sep).push(Seq::empty()));
                assert(s@.subrange(from as int, i + 1) == Seq::<char>::empty());
            }
        } else {
            proof {
                assert(s@.subrange(from as int, i as int).push(s@[i as int]) == s@.subrange(
                    from as int,
                    i + 1,
                ));
            }
        }
        i += 1;
    }
    proof {
        assert(whole.take(within.end - within.start) == whole);
    }
    spans.push(Span { start: from, end: within.end });
    spans
}

/// Where the file name begins in the path `p`.
pub(crate) fn find_file_name(p: &[char]) -> (start: usize)
    ensures
        start == file_name_start(p@),
        start <= p@.len(),
{
    let mut start: usize = 0;
    let mut i: usize = 0;
    while i < p.len()
        invariant
            i <= p@.len(),
            start <= i,
            start == file_name_start(p@.take(i as int)),
        decreases p@.len() - i,
    {
        proof {
            assert(p@.take(i + 1).drop_last() == p@.take(i as int));
        }
        if p[i] == '/' {
            start = i + 1;
        }
        i += 1;
    }
    proof {
        assert(p@.take(p@.len() as int) == p@);
    }
    start
}

/// Whether the stretch `within` of `s` ends in `suffix`.
pub(crate) fn span_ends_with(s: &[char], within: Span, suffix: &[char]) -> (b: bool)
    requires
        within.fits(s@.len()),
    ensures
        b == ends_with(within.of(s@), suffix@),
{
    let len = within.end - within.start;
    if suffix.len() > len {
        return false;
    }
    let base: usize = within.end - suffix.len();
    let ghost tail = within.of(s@).subrange(len - suffix@.len(), len as int);
    let mut i: usize = 0;
    while i < suffix.len()
        invariant
            within.fits(s@.len()),
            suffix@.len() <= len,
            len == within.end - within.start,
            base == within.end - suffix@.len(),
            tail == within.of(s@).subrange(len - suffix@.len(), len as int),
            i <= suffix@.len(),
            forall|k: int| 0 <= k < i ==> s@[base + k] == #[trigger] suffix@[k],
        decreases suffix@.len() - i,
    {
        if s[base + i] != suffix[i] {
            assert(tail[i as int] != suffix@[i as int]);
            return false;
        }
        i += 1;
    }
    assert(tail == suffix@) by {
        assert forall|k: int| 0 <= k < suffix@.len() implies tail[k] == suffix@[k] by {
            assert(s@[base + k] == suffix@[k]);
        }
    }
    true
}

/// A split always has a part.
pub proof fn lemma_split_nonempty(s: Seq<char>, sep: char)
    ensures
        split(s, sep).len() >= 1,
        split(s, sep).len() == occurrences(s, sep) + 1,
    decreases s.len(),
{
    if s.len() > 0 {
        lemma_split_nonempty(s.drop_last(), sep);
    }
}

/// No part of a split contains the separator.
pub proof fn lemma_split_free(s: Seq<char>, sep: char)
    ensures
        free_of(split(s, sep), sep),
    decreases s.len(),
{
    if s.len() > 0 {
        lemma_split_free(s.drop_last(), sep);
        lemma_split_nonempty(s.drop_last(), sep);
    }
}

/// Joining the parts of a split gives the sequence back.
pub proof fn lemma_join_split(s: Seq<char>, sep: char)
    ensures
        join(split(s, sep), sep) == s,
    decreases s.len(),
{
    if s.len() == 0 {
        assert(join(seq![Seq::<char>::empty()], sep) == Seq::<char>::empty());
    } else {
        let front = s.drop_last();
        let before = split(front, sep);
        lemma_join_split(front, sep);
        lemma_split_nonempty(front, sep);
        if s.last() == sep {
            let parts = before.push(Seq::empty());
            assert(parts.drop_last() == before);
            assert(join(parts, sep) == front + seq![sep] + Seq::<char>::empty());
            assert(front + seq![sep] + Seq::<char>::empty() == s);
        } else {
            let grown = before.last().push(s.last());
            let parts = before.drop_last().push(grown);
            assert(parts.drop_last() == before.drop_last());
            if before.len() == 1 {
                assert(join(before, sep) == before[0]);
                assert(join(parts, sep) == grown);
                assert(grown == s);
            } else {
                let head = join(before.drop_last(), sep) + seq![sep];
                assert(join(before, sep) == head + before.last());
                assert(join(parts, sep) == head + grown);
                assert(head + grown == (head + before.last()).push(s.last()));
                assert(front.push(s.last()) == s);
            }
        }
    }
}

/// Appending a run without separators lengthens the last part.
pub proof fn lemma_split_append(a: Seq<char>, b: Seq<char>, sep: char)
    requires
        forall|i: int| 0 <= i < b.len() ==> b[i] != sep,
    ensures
        split(a + b, sep) == split(a, sep).drop_last().push(split(a, sep).last() + b),
    decreases b.len(),
{
    lemma_split_nonempty(a, sep);
    let parts = split(a, sep);
    if b.len() == 0 {
        assert(a + b == a);
        assert(parts.last() + b == parts.last());
        assert(parts.drop_last().push(parts.last()) == parts);
    } else {
        let whole = a + b;
        assert(whole.drop_last() == a + b.drop_last());
        assert(whole.last() == b.last());
        lemma_split_append(a, b.drop_last(), sep);
        let mid = parts.drop_last().push(parts.last() + b.drop_last());
        assert(mid.drop_last() == parts.drop_last());
        assert((parts.last() + b.drop_last()).push(b.last()) == parts.last() + b);
    }
}

/// Splitting a join of separator-free parts gives the parts back.
pub proof fn lemma_split_join(parts: Seq<Seq<char>>, sep: char)
    requires
        parts.len() >= 1,
        free_of(parts, sep),
    ensures
        split(join(parts, sep), sep) == parts,
    decreases parts.len(),
{
    let last = parts.last();
    assert forall|i: int| 0 <= i < last.len() implies last[i] != sep by {
        assert(parts[parts.len() - 1][i] != sep);
    }
    if parts.len() == 1 {
        let nothing = Seq::<char>::empty();
        lemma_split_append(nothing, last, sep);
        assert(nothing + last == last);
        assert(split(nothing, sep) == seq![nothing]);
        assert(seq![nothing].drop_last().push(nothing + last) == parts);
    } else {
        let front = parts.drop_last();
        assert(free_of(front, sep)) by {
            assert forall|k: int, i: int|
                0 <= k < front.len() && 0 <= i < front[k].len() implies (#[trigger] front[k][i])
                != sep by {
                assert(parts[k][i] != sep);
            }
        }
        lemma_split_join(front, sep);
        let head = join(front, sep) + seq![sep];
        assert(head.drop_last() == join(front, sep));
        assert(split(head, sep) == front.push(Seq::empty()));
        lemma_split_append(head, last, sep);
        assert(Seq::<char>::empty() + last == last);
        assert(front.push(Seq::<char>::empty()).drop_last() == front);
        assert(front.push(last) == parts);
    }
}

/// The last part of a split is the end of the sequence: it holds no
/// separator, and unless it is the whole sequence a separator stands before it.
pub proof fn lemma_split_last(s: Seq<char>, sep: char)
    ensures
        split(s, sep).len() >= 1,
        ends_with(s, split(s, sep).last()),
        forall|i: int| 0 <= i < split(s, sep).last().len() ==> split(s, sep).last()[i] != sep,
        split(s, sep).last().len() < s.len() ==> s[s.len() - split(s, sep).last().len() - 1]
            == sep,
    decreases s.len(),
{
    lemma_split_nonempty(s, sep);
    if s.len() == 0 {
        assert(s.subrange(0, 0) == Seq::<char>::empty());
    } else {
        let front = s.drop_last();
        lemma_split_last(front, sep);
        let end = split(front, sep).last();
        let last = split(s, sep).last();
        if s.last() == sep {
            assert(s.subrange(s.len() as int, s.len() as int) == last);
        } else {
            assert(last == end.push(s.last()));
            assert(s.subrange(s.len() - last.len(), s.len() as int) == front.subrange(
                front.len() - end.len(),
                front.len() as int,
            ).push(s.last()));
            if last.len() < s.len() {
                assert(s[s.len() - last.len() - 1] == front[front.len() - end.len() - 1]);
            }
        }
    }
}

} // verus!
