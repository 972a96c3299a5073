//! Fixture files: a title, an input and the output expected for it, in one
//! text, with a line of dots between each two.

use crate::text::{char_at, char_len_utf8, substring, utf8_len};
use vstd::prelude::*;
use vstd::string::*;

verus! {

/// A fixture: the file it came from, and its three parts.
#[derive(Debug, Clone, PartialEq, Eq)]
pub struct FixtureFile {
    pub file: String,
    pub title: String,
    pub input: String,
    pub expected: String,
}

/// What a fixture's text may lack.
#[derive(Debug, Clone, Copy, PartialEq, Eq, Structural)]
pub enum FixtureError {
    /// No line of dots ends the title.
    MissingInput,
    /// No line of dots ends the input.
    MissingExpected,
}

/// Index of the first line feed at or after `from`, or the length of `cs`
/// where there is none.
pub open spec fn line_break(cs: Seq<char>, from: int) -> int
    decreases cs.len() - from,
{
    if from < 0 || from >= cs.len() {
        cs.len() as int
    } else if cs[from] == '\n' {
        from
    } else {
        line_break(cs, from + 1)
    }
}

/// The line that begins at `from`, without its ending: a line feed, or a
/// carriage return and a line feed.
pub open spec fn line_at(cs: Seq<char>, from: int) -> Seq<char> {
    let end = line_break(cs, from);
    if from < end < cs.len() && cs[end - 1] == '\r' {
        cs.subrange(from, end - 1)
    } else {
        cs.subrange(from, end)
    }
}

/// Where the line after the one at `from` begins: behind the line feed, or
/// at the end of the text where the line has none.
pub open spec fn after_line(cs: Seq<char>, from: int) -> int {
    let end = line_break(cs, from);
    if from <= end < cs.len() {
        end + 1
    } else {
        cs.len() as int
    }
}

/// Whether a line separates two parts: it begins with four dots.
pub open spec fn is_separator(line: Seq<char>) -> bool {
    line.len() >= 4 && line[0] == '.' && line[1] == '.' && line[2] == '.' && line[3] == '.'
}

/// The lines from `from` up to the next separator, each with a line feed
/// behind it and all behind `acc`, and where the line after the separator
/// begins. `None` where no separator follows.
pub open spec fn section(cs: Seq<char>, from: int, acc: Seq<char>) -> Option<(Seq<char>, int)>
    decreases cs.len() - from,
{
    if from < 0 || from >= cs.len() {
        None
    } else if is_separator(line_at(cs, from)) {
        Some((acc, after_line(cs, from)))
    } else {
        section(cs, after_line(cs, from), acc + line_at(cs, from) + seq!['\n'])
    }
}

/// The lines from `from` to the end, each with a line feed behind it and
/// all behind `acc`.
pub open spec fn remainder(cs: Seq<char>, from: int, acc: Seq<char>) -> Seq<char>
    decreases cs.len() - from,
{
    if from < 0 || from >= cs.len() {
        acc
    } else {
        remainder(cs, after_line(cs, from), acc + line_at(cs, from) + seq!['\n'])
    }
}

/// Index of the first character of `cs` that is no line feed, or its length.
pub open spec fn leading_newlines(cs: Seq<char>, from: int) -> int
    decreases cs.len() - from,
{
    if 0 <= from < cs.len() && cs[from] == '\n' {
        leading_newlines(cs, from + 1)
    } else {
        from
    }
}

/// The length of `cs` without the line feeds that it ends with.
pub open spec fn trimmed_len(cs: Seq<char>) -> int
    decreases cs.len(),
{
    if cs.len() > 0 && cs.last() == '\n' {
        trimmed_len(cs.drop_last())
    } else {
        cs.len() as int
    }
}

/// `cs` without the line feeds that it begins with.
pub open spec fn skip_newlines(cs: Seq<char>) -> Seq<char> {
    cs.skip(leading_newlines(cs, 0))
}

/// `cs` without the line feeds that it ends with.
pub open spec fn drop_newlines(cs: Seq<char>) -> Seq<char> {
    cs.take(trimmed_len(cs))
}

/// The three parts of a fixture: the title, the input without the line feeds
/// around it, and the expected output without the line feeds before it; or
/// which of its two separators the text lacks.
pub open spec fn fixture_parts(cs: Seq<char>) -> Result<
    (Seq<char>, Seq<char>, Seq<char>),
    FixtureError,
> {
    match section(cs, 0, Seq::empty()) {
        None => Err(FixtureError::MissingInput),
        Some((title, input_start)) => match section(cs, input_start, Seq::empty()) {
            None => Err(FixtureError::MissingExpected),
            Some((input, expected_start)) => Ok(
                (
                    title,
                    drop_newlines(skip_newlines(input)),
                    skip_newlines(remainder(cs, expected_start, Seq::empty())),
                ),
            ),
        },
    }
}

/// The lines of the section that begins at `from`; empty where no separator
/// follows.
pub open spec fn section_text(cs: Seq<char>, from: int) -> Seq<char> {
    match section(cs, from, Seq::empty()) {
        Some((part, _)) => part,
        None => Seq::empty(),
    }
}

/// Where the line after the section that begins at `from` begins; the end of
/// the text where no separator follows.
pub open spec fn section_next(cs: Seq<char>, from: int) -> int {
    match section(cs, from, Seq::empty()) {
        Some((_, next)) => next,
        None => cs.len() as int,
    }
}

/// A line ends within the text, and the next line begins behind it.
proof fn lemma_line_break(cs: Seq<char>, from: int)
    requires
        0 <= from <= cs.len(),
    ensures
        from <= line_break(cs, from) <= cs.len(),
        from < cs.len() ==> from < after_line(cs, from) <= cs.len(),
    decreases cs.len() - from,
{
    if from < cs.len() && cs[from] != '\n' {
        lemma_line_break(cs, from + 1);
    }
}

/// Reads the line that begins at byte `from` of `text`, and returns it with
/// the byte at which the next line begins.
fn read_line<'a>(text: &'a str, from: usize, Ghost(k): Ghost<int>) -> (r: (&'a str, usize))
    requires
        0 <= k < text@.len(),
        from == utf8_len(text@.take(k)),
    ensures
        r.0@ == line_at(text@, k),
        k < after_line(text@, k) <= text@.len(),
        r.1 == utf8_len(text@.take(after_line(text@, k))),
{
    let mut i: usize = from;
    let ghost mut j: int = k;
    let mut content_end: usize = from;
    let ghost mut content_j: int = k;
    proof {
        lemma_line_break(text@, k);
    }
    loop
        invariant
            0 <= k <= content_j <= j <= text@.len(),
            k < text@.len(),
            from == utf8_len(text@.take(k)),
            i == utf8_len(text@.take(j)),
            content_end == utf8_len(text@.take(content_j)),
            line_break(text@, k) == line_break(text@, j),
            content_j == if k < j && text@[j - 1] == '\r' {
                j - 1
            } else {
                j
            },
        decreases text@.len() - j,
    {
        match char_at(text, i, Ghost(j)) {
            None => {
                let line = substring(text, from, i, Ghost(k), Ghost(j));
                return (line, i);
            },
            Some(c) => {
                let width = char_len_utf8(c);
                if c == '\n' {
                    let line = substring(text, from, content_end, Ghost(k), Ghost(content_j));
                    return (line, i + width);
                }
                content_end = if c == '\r' {
                    i
                } else {
                    i + width
                };
                i += width;
                proof {
                    j = j + 1;
                    content_j = if c == '\r' {
                        j - 1
                    } else {
                        j
                    };
                }
            },
        }
    }
}

/// Whether `line` begins with four dots.
fn separates(line: &str) -> (r: bool)
    ensures
        r == is_separator(line@),
{
    let mut n: usize = 0;
    assert(line@.take(0) =~= Seq::<char>::empty());
    while n < 4
        invariant
            n <= 4,
            n <= line@.len(),
            n == utf8_len(line@.take(n as int)),
            forall|j: int| 0 <= j < n ==> line@[j] == '.',
        decreases 4 - n,
    {
        match char_at(line, n, Ghost(n as int)) {
            None => {
                return false;
            },
            Some(c) => {
                if c != '.' {
                    return false;
                }
            },
        }
        n += 1;
    }
    true
}

/// Gathers the lines from byte `from` of `text` up to the next separator.
fn read_section(text: &str, from: usize, Ghost(k): Ghost<int>) -> (r: Option<(String, usize)>)
    requires
        0 <= k <= text@.len(),
        from == utf8_len(text@.take(k)),
    ensures
        match r {
            Some((part, next)) => {
                &&& section(text@, k, Seq::empty()) is Some
                &&& part@ == section_text(text@, k)
                &&& 0 <= section_next(text@, k) <= text@.len()
                &&& next == utf8_len(text@.take(section_next(text@, k)))
            },
            None => section(text@, k, Seq::empty()) is None,
        },
{
    let mut part = String::new();
    let mut pos: usize = from;
    let ghost mut p: int = k;
    proof {
        reveal_strlit("\n");
    }
    loop
        invariant
            0 <= p <= text@.len(),
            pos == utf8_len(text@.take(p)),
            section(text@, k, Seq::empty()) == section(text@, p, part@),
            "\n"@ == seq!['\n'],
        decreases text@.len() - p,
    {
        if char_at(text, pos, Ghost(p)).is_none() {
            return None;
        }
        let (line, next) = read_line(text, pos, Ghost(p));
        if separates(line) {
            return Some((part, next));
        }
        part.append(line);
        part.append("\n");
        pos = next;
        proof {
            p = after_line(text@, p);
        }
    }
}

/// Gathers the lines from byte `from` of `text` to its end.
fn read_remainder(text: &str, from: usize, Ghost(k): Ghost<int>) -> (r: String)
    requires
        0 <= k <= text@.len(),
        from == utf8_len(text@.take(k)),
    ensures
        r@ == remainder(text@, k, Seq::empty()),
{
    let mut part = String::new();
    let mut pos: usize = from;
    let ghost mut p: int = k;
    proof {
        reveal_strlit("\n");
    }
    loop
        invariant
            0 <= p <= text@.len(),
            pos == utf8_len(text@.take(p)),
            remainder(text@, k, Seq::empty()) == remainder(text@, p, part@),
            "\n"@ == seq!['\n'],
        decreases text@.len() - p,
    {
        if char_at(text, pos, Ghost(p)).is_none() {
            return part;
        }
        let (line, next) = read_line(text, pos, Ghost(p));
        part.append(line);
        part.append("\n");
        pos = next;
        proof {
            p = after_line(text@, p);
        }
    }
}

/// `text` without the line feeds that it begins with.
pub fn strip_leading_newlines<'a>(text: &'a str) -> (r: &'a str)
    ensures
        r@ == skip_newlines(text@),
{
    let mut i: usize = 0;
    assert(text@.take(0) =~= Seq::<char>::empty());
    loop
        invariant
            i <= text@.len(),
            i == utf8_len(text@.take(i as int)),
            leading_newlines(text@, 0) == leading_newlines(text@, i as int),
        decreases text@.len() - i,
    {
        match char_at(text, i, Ghost(i as int)) {
            None => {
                let rest = substring(text, i, i, Ghost(i as int), Ghost(i as int));
                assert(text@.subrange(i as int, i as int) =~= text@.skip(i as int));
                return rest;
            },
            Some(c) => {
                if c != '\n' {
                    let total = text.as_bytes().len();
                    proof {
                        assert(text@.take(text@.len() as int) =~= text@);
                        assert(text@.subrange(i as int, text@.len() as int) =~= text@.skip(
                            i as int,
                        ));
                    }
                    return substring(text, i, total, Ghost(i as int), Ghost(text@.len() as int));
                }
            },
        }
        i += 1;
    }
}

/// `text` without the line feeds that it ends with.
pub fn strip_trailing_newlines<'a>(text: &'a str) -> (r: &'a str)
    ensures
        r@ == drop_newlines(text@),
{
    let mut i: usize = 0;
    let ghost mut k: int = 0;
    let mut keep: usize = 0;
    let ghost mut keep_k: int = 0;
    assert(text@.take(0) =~= Seq::<char>::empty());
    loop
        invariant
            0 <= keep_k <= k <= text@.len(),
            i == utf8_len(text@.take(k)),
            keep == utf8_len(text@.take(keep_k)),
            keep_k == trimmed_len(text@.take(k)),
        decreases text@.len() - k,
    {
        match char_at(text, i, Ghost(k)) {
            None => {
                assert(text@.take(k) =~= text@);
                let kept = substring(text, 0, keep, Ghost(0), Ghost(keep_k));
                assert(text@.subrange(0, keep_k) =~= text@.take(keep_k));
                return kept;
            },
            Some(c) => {
                proof {
                    assert(text@.take(k + 1).drop_last() =~= text@.take(k));
                }
                i += char_len_utf8(c);
                if c != '\n' {
                    keep = i;
                }
                proof {
                    k = k + 1;
                    if c != '\n' {
                        keep_k = k;
                    }
                }
            },
        }
    }
}

/// What `parse_fixture` returns, as plain values.
pub open spec fn parts_view(r: Result<(String, String, String), FixtureError>) -> Result<
    (Seq<char>, Seq<char>, Seq<char>),
    FixtureError,
> {
    match r {
        Ok((title, input, expected)) => Ok((title@, input@, expected@)),
        Err(e) => Err(e),
    }
}

/// Splits the text of a fixture file into title, input and expected output.
pub fn parse_fixture(text: &str) -> (r: Result<(String, String, String), FixtureError>)
    ensures
        parts_view(r) == fixture_parts(text@),
{
    assert(text@.take(0) =~= Seq::<char>::empty());
    let (title, input_start) = match read_section(text, 0, Ghost(0)) {
        None => {
            return Err(FixtureError::MissingInput);
        },
        Some(found) => found,
    };
    let ghost p = section_next(text@, 0);
    let (input, expected_start) = match read_section(text, input_start, Ghost(p)) {
        None => {
            return Err(FixtureError::MissingExpected);
        },
        Some(found) => found,
    };
    let ghost q = section_next(text@, p);
    let expected = read_remainder(text, expected_start, Ghost(q));
    let input = strip_trailing_newlines(strip_leading_newlines(input.as_str())).to_owned();
    let expected = strip_leading_newlines(expected.as_str()).to_owned();
    Ok((title, input, expected))
}

impl FixtureFile {
    /// The fixture that the text of the file `file` holds.
    pub fn parse(file: &str, text: &str) -> (r: Result<FixtureFile, FixtureError>)
        ensures
            match r {
                Ok(f) => f.file@ == file@ && fixture_parts(text@) == Ok::<
                    (Seq<char>, Seq<char>, Seq<char>),
                    FixtureError,
                >((f.title@, f.input@, f.expected@)),
                Err(e) => fixture_parts(text@) == Err::<
                    (Seq<char>, Seq<char>, Seq<char>),
                    FixtureError,
                >(e),
            },
    {
        match parse_fixture(text) {
            Ok((title, input, expected)) => Ok(
                FixtureFile { file: file.to_owned(), title, input, expected },
            ),
            Err(e) => Err(e),
        }
    }
}

} // verus!
