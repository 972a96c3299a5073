//! Character classes: the ASCII classes that the matchers test bytes against,
//! and the Unicode classes that decide what may stand in a host name.

use unicode_categories::UnicodeCategories;
use vstd::prelude::*;

verus! {

/// The byte of `!`.
pub const BANG: u8 = 0x21;

/// The byte of `"`.
pub const DQUOTE: u8 = 0x22;

/// The byte of `&`.
pub const AMP: u8 = 0x26;

/// The byte of `'`.
pub const QUOTE: u8 = 0x27;

/// The byte of `(`.
pub const LPAREN: u8 = 0x28;

/// The byte of `)`.
pub const RPAREN: u8 = 0x29;

/// The byte of `*`.
pub const STAR: u8 = 0x2a;

/// The byte of `+`.
pub const PLUS: u8 = 0x2b;

/// The byte of `,`.
pub const COMMA: u8 = 0x2c;

/// The byte of `-`.
pub const DASH: u8 = 0x2d;

/// The byte of `.`.
pub const DOT: u8 = 0x2e;

/// The byte of `/`.
pub const SLASH: u8 = 0x2f;

/// The byte of `:`.
pub const COLON: u8 = 0x3a;

/// The byte of `;`.
pub const SEMICOLON: u8 = 0x3b;

/// The byte of `<`.
pub const LT: u8 = 0x3c;

/// The byte of `?`.
pub const QUESTION: u8 = 0x3f;

/// The byte of `@`.
pub const AT: u8 = 0x40;

/// The byte of `[`.
pub const LBRACKET: u8 = 0x5b;

/// The byte of `]`.
pub const RBRACKET: u8 = 0x5d;

/// The byte of `_`.
pub const UNDERSCORE: u8 = 0x5f;

/// The byte of `w`.
pub const LOWER_W: u8 = 0x77;

/// The byte of `~`.
pub const TILDE: u8 = 0x7e;

/// ASCII white space: tab, line feed, vertical tab, form feed, carriage
/// return and space.
pub open spec fn is_space_byte(b: u8) -> bool {
    (9 <= b <= 13) || b == 32
}

/// ASCII decimal digits.
pub open spec fn is_digit_byte(b: u8) -> bool {
    0x30 <= b <= 0x39
}

/// ASCII letters of either case.
pub open spec fn is_alpha_byte(b: u8) -> bool {
    (0x41 <= b <= 0x5a) || (0x61 <= b <= 0x7a)
}

/// ASCII letters and digits.
pub open spec fn is_alnum_byte(b: u8) -> bool {
    is_alpha_byte(b) || is_digit_byte(b)
}

/// Characters with the Unicode property `White_Space`.
pub open spec fn is_space_char(c: char) -> bool {
    ||| ('\u{9}' <= c <= '\u{d}')
    ||| c == ' '
    ||| c == '\u{85}'
    ||| c == '\u{a0}'
    ||| c == '\u{1680}'
    ||| ('\u{2000}' <= c <= '\u{200a}')
    ||| c == '\u{2028}'
    ||| c == '\u{2029}'
    ||| c == '\u{202f}'
    ||| c == '\u{205f}'
    ||| c == '\u{3000}'
}

/// Whether `c` belongs to one of the Unicode general categories of
/// punctuation (Pc, Pd, Pe, Pf, Pi, Po, Ps), as the category tables have it.
pub uninterp spec fn unicode_punctuation(c: char) -> bool;

/// Characters that may stand in a host name: anything that is neither white
/// space nor punctuation.
pub open spec fn is_host_char(c: char) -> bool {
    !is_space_char(c) && !unicode_punctuation(c)
}

/// Characters after which a link may begin: white space and `*`, `_`, `~`, `(`.
pub open spec fn is_link_boundary(c: char) -> bool {
    is_space_char(c) || c == '*' || c == '_' || c == '~' || c == '('
}

/// Whether `b` is ASCII white space.
#[verifier::when_used_as_spec(is_space_byte)]
pub fn isspace(b: u8) -> (r: bool)
    ensures
        r == is_space_byte(b),
{
    (9 <= b && b <= 13) || b == 32
}

/// Whether `b` is an ASCII digit.
#[verifier::when_used_as_spec(is_digit_byte)]
pub fn isdigit(b: u8) -> (r: bool)
    ensures
        r == is_digit_byte(b),
{
    0x30 <= b && b <= 0x39
}

/// Whether `b` is an ASCII letter.
#[verifier::when_used_as_spec(is_alpha_byte)]
pub fn isalpha(b: u8) -> (r: bool)
    ensures
        r == is_alpha_byte(b),
{
    (0x41 <= b && b <= 0x5a) || (0x61 <= b && b <= 0x7a)
}

/// Whether `b` is an ASCII letter or digit.
#[verifier::when_used_as_spec(is_alnum_byte)]
pub fn isalnum(b: u8) -> (r: bool)
    ensures
        r == is_alnum_byte(b),
{
    isalpha(b) || isdigit(b)
}

/// Whether `c` is Unicode white space.
#[verifier::when_used_as_spec(is_space_char)]
pub fn is_whitespace(c: char) -> (r: bool)
    ensures
        r == is_space_char(c),
{
    ('\u{9}' <= c && c <= '\u{d}') || c == ' ' || c == '\u{85}' || c == '\u{a0}' || c
        == '\u{1680}' || ('\u{2000}' <= c && c <= '\u{200a}') || c == '\u{2028}' || c
        == '\u{2029}' || c == '\u{202f}' || c == '\u{205f}' || c == '\u{3000}'
}

/// Looks `c` up in the punctuation categories.
///
/// Wraps `UnicodeCategories::is_punctuation` for `char`, a search of fixed
/// tables: the answer depends on `c` alone and is what `unicode_punctuation`
/// names.
#[verifier::external_body]
pub(crate) fn is_punctuation(c: char) -> (r: bool)
    ensures
        r == unicode_punctuation(c),
{
    c.is_punctuation()
}

/// Whether `c` may stand in a host name.
#[verifier::when_used_as_spec(is_host_char)]
pub fn is_valid_hostchar(c: char) -> (r: bool)
    ensures
        r == is_host_char(c),
{
    !is_whitespace(c) && !is_punctuation(c)
}

/// Whether a link may begin right after `c`.
#[verifier::when_used_as_spec(is_link_boundary)]
pub fn check_prev(c: char) -> (r: bool)
    ensures
        r == is_link_boundary(c),
{
    is_whitespace(c) || c == '*' || c == '_' || c == '~' || c == '('
}

} // verus!
