//! Front matter: the block between two lines of dashes at the very start of
//! a document.

use crate::text::{char_at, utf8_len};
use vstd::prelude::*;
use vstd::string::*;

verus! {

/// The front matter of a document in the document tree.
#[derive(Debug, Clone, PartialEq, Eq)]
pub struct FrontMatter {
    pub content: String,
}

/// How many `-` stand in `cs` from `from` on, one after the other.
pub open spec fn dash_run(cs: Seq<char>, from: int) -> nat
    decreases cs.len() - from,
{
    if 0 <= from < cs.len() && cs[from] == '-' {
        1 + dash_run(cs, from + 1)
    } else {
        0
    }
}

/// The fence that a first line opens: its leading dashes, where there are at
/// least three of them.
pub open spec fn fence_opened(cs: Seq<char>) -> Option<nat> {
    if dash_run(cs, 0) >= 3 {
        Some(dash_run(cs, 0))
    } else {
        None
    }
}

/// Whether a line closes a fence of `fence` dashes: it begins with at least
/// as many.
pub open spec fn fence_closed(cs: Seq<char>, fence: nat) -> bool {
    dash_run(cs, 0) >= fence
}

/// The index of the first line after the first that closes the fence, if
/// one does.
pub open spec fn closing_line(lines: Seq<Seq<char>>, fence: nat, from: int) -> Option<int>
    decreases lines.len() - from,
{
    if from < 1 || from >= lines.len() {
        None
    } else if fence_closed(lines[from], fence) {
        Some(from)
    } else {
        closing_line(lines, fence, from + 1)
    }
}

/// A run of dashes ends within the line.
proof fn lemma_dash_run(cs: Seq<char>, from: int)
    requires
        0 <= from <= cs.len(),
    ensures
        from + dash_run(cs, from) <= cs.len(),
    decreases cs.len() - from,
{
    if from < cs.len() && cs[from] == '-' {
        lemma_dash_run(cs, from + 1);
    }
}

/// Counts the dashes that `line` begins with, up to `limit` of them.
fn leading_dashes(line: &str, limit: usize) -> (n: usize)
    ensures
        n == if dash_run(line@, 0) < limit {
            dash_run(line@, 0)
        } else {
            limit as nat
        },
{
    let mut n: usize = 0;
    assert(line@.take(0) =~= Seq::<char>::empty());
    while n < limit
        invariant
            n <= limit,
            n <= line@.len(),
            n == utf8_len(line@.take(n as int)),
            dash_run(line@, 0) == n + dash_run(line@, n as int),
        decreases limit - n,
    {
        match char_at(line, n, Ghost(n as int)) {
            None => {
                return n;
            },
            Some(c) => {
                if c != '-' {
                    return n;
                }
            },
        }
        n += 1;
    }
    n
}

/// Reads the fence that the first line of a document opens, and returns the
/// number of its dashes.
pub fn opening_fence(line: &str) -> (r: Option<usize>)
    ensures
        match r {
            Some(n) => fence_opened(line@) == Some(n as nat),
            None => fence_opened(line@) is None,
        },
{
    let total = line.as_bytes().len();
    proof {
        lemma_dash_run(line@, 0);
        crate::text::lemma_utf8_len_lower(line@);
    }
    let n = leading_dashes(line, total);
    if n >= 3 {
        Some(n)
    } else {
        None
    }
}

/// Whether `line` closes a fence of `fence` dashes.
pub fn closes_fence(line: &str, fence: usize) -> (r: bool)
    ensures
        r == fence_closed(line@, fence as nat),
{
    leading_dashes(line, fence) == fence
}

/// The text of each line.
pub open spec fn lines_view(lines: Seq<&str>) -> Seq<Seq<char>> {
    lines.map_values(|line: &str| line@)
}

/// Looks among the lines after the first for the one that closes a fence of
/// `fence` dashes, and returns its index.
pub fn find_closing_line(lines: &[&str], fence: usize) -> (r: Option<usize>)
    ensures
        match r {
            Some(i) => closing_line(lines_view(lines@), fence as nat, 1) == Some(i as int),
            None => closing_line(lines_view(lines@), fence as nat, 1) is None,
        },
{
    let mut i: usize = 1;
    while i < lines.len()
        invariant
            1 <= i,
            closing_line(lines_view(lines@), fence as nat, 1) == closing_line(
                lines_view(lines@),
                fence as nat,
                i as int,
            ),
        decreases lines@.len() - i,
    {
        if closes_fence(lines[i], fence) {
            return Some(i);
        }
        i += 1;
    }
    None
}

} // verus!
