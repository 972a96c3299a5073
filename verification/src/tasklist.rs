//! Task lists: the check box that a list item's text may begin with.

use crate::ctype::{is_space_char, is_whitespace};
use crate::text::{char_at, char_len_utf8, utf8_len};
use vstd::prelude::*;
use vstd::string::*;

verus! {

/// The check box of a task-list item in the document tree.
#[derive(Debug, Clone, Copy, PartialEq, Eq)]
pub struct TodoCheckbox {
    pub checked: bool,
    pub disabled: bool,
}

/// Whether the text `cs` begins with a check box, and whether that box is
/// checked. A box is `[`, one character, `]`, and white space behind it; the
/// character is white space in an empty box and `x` or `X` in a checked one.
pub open spec fn checkbox_marker(cs: Seq<char>) -> Option<bool> {
    if cs.len() >= 4 && cs[0] == '[' && cs[2] == ']' && is_space_char(cs[3]) {
        if is_space_char(cs[1]) {
            Some(false)
        } else if cs[1] == 'x' || cs[1] == 'X' {
            Some(true)
        } else {
            None
        }
    } else {
        None
    }
}

/// Reads the check box at the start of `text`. Returns whether it is
/// checked, and the number of bytes that the three characters of the box
/// take.
pub fn parse_checkbox(text: &str) -> (r: Option<(bool, usize)>)
    ensures
        match r {
            Some((checked, n)) => checkbox_marker(text@) == Some(checked) && n == utf8_len(
                text@.take(3),
            ),
            None => checkbox_marker(text@) is None,
        },
{
    assert(text@.take(0) =~= Seq::<char>::empty());
    match char_at(text, 0, Ghost(0)) {
        None => {
            return None;
        },
        Some(c) => {
            if c != '[' {
                return None;
            }
        },
    }
    let mark = match char_at(text, 1, Ghost(1)) {
        None => {
            return None;
        },
        Some(c) => c,
    };
    let checked = if is_whitespace(mark) {
        false
    } else if mark == 'x' || mark == 'X' {
        true
    } else {
        return None;
    };
    let close = 1 + char_len_utf8(mark);
    match char_at(text, close, Ghost(2)) {
        None => {
            return None;
        },
        Some(c) => {
            if c != ']' {
                return None;
            }
        },
    }
    match char_at(text, close + 1, Ghost(3)) {
        None => None,
        Some(c) => {
            if is_whitespace(c) {
                Some((checked, close + 1))
            } else {
                None
            }
        },
    }
}

impl TodoCheckbox {
    /// The check box that a list item's text begins with, if it begins with
    /// one, and the number of bytes to take off the text for it.
    pub fn from_text(text: &str, disabled: bool) -> (r: Option<(TodoCheckbox, usize)>)
        ensures
            match r {
                Some((checkbox, n)) => checkbox_marker(text@) == Some(checkbox.checked)
                    && checkbox.disabled == disabled && n == utf8_len(text@.take(3)),
                None => checkbox_marker(text@) is None,
            },
    {
        match parse_checkbox(text) {
            None => None,
            Some((checked, n)) => Some((TodoCheckbox { checked, disabled }, n)),
        }
    }
}

} // verus!
