//! Definition lists: the line that begins a description.

use crate::text::{char_at, utf8_len};
use vstd::prelude::*;
use vstd::string::*;

verus! {

/// Index of the first character at or after `from` that is neither a space
/// nor a tab, or the length of `cs` where there is none.
pub open spec fn first_nonblank(cs: Seq<char>, from: int) -> int
    decreases cs.len() - from,
{
    if from < 0 || from >= cs.len() {
        cs.len() as int
    } else if cs[from] == ' ' || cs[from] == '\t' {
        first_nonblank(cs, from + 1)
    } else {
        from
    }
}

/// Whether a line begins a description: a marker, `:` or `~`, then a space
/// or a tab, then, after any further spaces and tabs, something else.
pub open spec fn begins_description(cs: Seq<char>) -> bool {
    &&& cs.len() >= 2
    &&& (cs[0] == ':' || cs[0] == '~')
    &&& (cs[1] == ' ' || cs[1] == '\t')
    &&& first_nonblank(cs, 2) < cs.len()
}

/// Whether `line` begins a description.
pub fn is_description_line(line: &str) -> (r: bool)
    ensures
        r == begins_description(line@),
{
    assert(line@.take(0) =~= Seq::<char>::empty());
    match char_at(line, 0, Ghost(0)) {
        None => {
            return false;
        },
        Some(c) => {
            if c != ':' && c != '~' {
                return false;
            }
        },
    }
    match char_at(line, 1, Ghost(1)) {
        None => {
            return false;
        },
        Some(c) => {
            if c != ' ' && c != '\t' {
                return false;
            }
        },
    }
    let mut i: usize = 2;
    loop
        invariant
            2 <= i <= line@.len(),
            line@[0] == ':' || line@[0] == '~',
            line@[1] == ' ' || line@[1] == '\t',
            i == utf8_len(line@.take(i as int)),
            first_nonblank(line@, 2) == first_nonblank(line@, i as int),
        decreases line@.len() - i,
    {
        match char_at(line, i, Ghost(i as int)) {
            None => {
                return false;
            },
            Some(c) => {
                if c != ' ' && c != '\t' {
                    return true;
                }
            },
        }
        i += 1;
    }
}

/// Index of the first byte in `bytes[from..end]` that is neither a space nor
/// a tab, or `end` where there is none.
pub open spec fn blank_run_end(bytes: Seq<u8>, from: int, end: int) -> int
    decreases end - from,
{
    if from >= end {
        end
    } else if 0 <= from < bytes.len() && (bytes[from] == 0x20 || bytes[from] == 0x09) {
        blank_run_end(bytes, from + 1, end)
    } else {
        from
    }
}

/// The column reached from `indent` over the spaces and tabs in
/// `bytes[from..to]`: a space is one column, a tab runs to the next multiple
/// of four.
pub open spec fn column_after(bytes: Seq<u8>, from: int, to: int, indent: int) -> int
    decreases to - from,
{
    if from >= to || from < 0 || from >= bytes.len() {
        indent
    } else if bytes[from] == 0x09 {
        column_after(bytes, from + 1, to, indent + 4 - indent % 4)
    } else {
        column_after(bytes, from + 1, to, indent + 1)
    }
}

/// Where the text of a description starts, as byte offset and column, when
/// the spaces and tabs from `start` on are passed over: the line runs to
/// `line_end`. `None` where the text ends within the line before anything
/// but spaces and tabs was met.
pub open spec fn description_start(bytes: Seq<u8>, start: int, line_end: int, indent: int)
    -> Option<(int, int)> {
    let limit = if line_end < bytes.len() {
        line_end
    } else {
        bytes.len() as int
    };
    let stop = blank_run_end(bytes, start, limit);
    if start >= line_end {
        Some((start, indent))
    } else if start >= bytes.len() || (stop == limit && limit < line_end) {
        None
    } else {
        Some((stop, column_after(bytes, start, stop, indent)))
    }
}

/// A run of blanks ends between its start and the end of the span.
proof fn lemma_blank_run_end(bytes: Seq<u8>, from: int, end: int)
    requires
        from <= end,
    ensures
        from <= blank_run_end(bytes, from, end) <= end,
    decreases end - from,
{
    if from < end && 0 <= from < bytes.len() && (bytes[from] == 0x20 || bytes[from] == 0x09) {
        lemma_blank_run_end(bytes, from + 1, end);
    }
}

/// Passes over the spaces and tabs that stand in `src` from byte `start` on,
/// up to `line_end`, and counts columns on from `indent`. Returns the byte
/// offset and the column of what follows.
pub fn skip_blanks(src: &str, start: usize, line_end: usize, indent: i32) -> (r: Option<
    (usize, i32),
>)
    requires
        0 <= indent,
        start <= line_end ==> indent + 4 * (line_end - start) <= i32::MAX,
    ensures
        match r {
            Some((pos, column)) => description_start(
                src.spec_bytes(),
                start as int,
                line_end as int,
                indent as int,
            ) == Some((pos as int, column as int)),
            None => description_start(
                src.spec_bytes(),
                start as int,
                line_end as int,
                indent as int,
            ) is None,
        },
{
    let bytes = src.as_bytes();
    let mut pos = start;
    let mut column = indent;
    let ghost limit = if line_end < bytes@.len() {
        line_end as int
    } else {
        bytes@.len() as int
    };
    if start >= line_end {
        return Some((start, indent));
    }
    while pos < line_end
        invariant
            start <= pos <= line_end,
            start < line_end,
            bytes@ == src.spec_bytes(),
            limit == if line_end < bytes@.len() {
                line_end as int
            } else {
                bytes@.len() as int
            },
            pos == start || (pos <= bytes@.len() && start < bytes@.len()),
            0 <= indent <= column <= indent + 4 * (pos - start),
            indent + 4 * (line_end - start) <= i32::MAX,
            blank_run_end(bytes@, start as int, limit) == blank_run_end(bytes@, pos as int, limit),
            column_after(
                bytes@,
                start as int,
                blank_run_end(bytes@, start as int, limit),
                indent as int,
            ) == column_after(
                bytes@,
                pos as int,
                blank_run_end(bytes@, start as int, limit),
                column as int,
            ),
        decreases line_end - pos,
    {
        if pos >= bytes.len() {
            return None;
        }
        proof {
            lemma_blank_run_end(bytes@, pos + 1, limit);
        }
        let b = bytes[pos];
        if b == 0x20 {
            column += 1;
        } else if b == 0x09 {
            column += 4 - column % 4;
        } else {
            return Some((pos, column));
        }
        pos += 1;
    }
    Some((pos, column))
}

} // verus!
