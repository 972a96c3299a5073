//! The two entry points: a link at the start of a text, and a link at a
//! given place in it.

use crate::ctype::{check_prev, is_link_boundary};
use crate::email::{address_match, lemma_email_match_len, match_email, Protocol};
use crate::text::{
    char_before, has_prefix, lemma_literal_prefix, lemma_str_chars, link_view, match_len,
};
use crate::url::{law_url_match_covers_scheme, match_url_str, url_match};
use crate::www::{law_www_match_covers_prefix, match_www_str, www_match};
use vstd::prelude::*;
use vstd::string::*;
use vstd::utf8::*;

verus! {

/// The link that the text `data` begins with: one with a scheme, else one
/// with `www.`, else an address.
pub open spec fn start_match(data: Seq<u8>) -> Option<(Seq<char>, nat)> {
    if url_match(data) is Some {
        url_match(data)
    } else if www_match(data) is Some {
        www_match(data)
    } else {
        address_match(data)
    }
}

/// Whether a link may begin at byte `pos` of the text `data`: `pos` is a
/// character boundary, and it is the start of the text or the character
/// before it is one after which a link may begin.
pub open spec fn may_begin_at(data: Seq<u8>, pos: int) -> bool {
    is_char_boundary(data, pos) && (pos == 0 || is_link_boundary(
        decode_utf8(data.take(pos)).last(),
    ))
}

/// The link that begins at byte `index` of the text `data`, if one may begin
/// there.
pub open spec fn index_match(data: Seq<u8>, index: int) -> Option<(Seq<char>, nat)> {
    if may_begin_at(data, index) {
        start_match(data.skip(index))
    } else {
        None
    }
}

/// Matches a link at the start of `contents`, and returns its target with
/// the number of characters that the link takes.
pub fn match_start(contents: &str) -> (r: Option<(String, usize)>)
    ensures
        link_view(r) == start_match(contents.spec_bytes()),
        r is Some ==> match_len(link_view(r)) >= 1,
{
    proof {
        if start_match(contents.spec_bytes()) is Some {
            law_match_is_not_empty(contents.spec_bytes());
        }
    }
    if let Some((link, n)) = match_url_str(contents) {
        return Some((link.to_owned(), n));
    }
    if let Some((link, n)) = match_www_str(contents) {
        return Some((String::from_str("http://").concat(link), n));
    }
    match_email(contents.as_bytes())
}

/// A match is never empty: whatever is matched at the start of a text takes
/// at least one character.
pub proof fn law_match_is_not_empty(data: Seq<u8>)
    requires
        start_match(data) is Some,
    ensures
        match_len(start_match(data)) >= 1,
{
    if url_match(data) is Some {
        law_url_match_covers_scheme(data);
    } else if www_match(data) is Some {
        law_www_match_covers_prefix(data);
    } else if has_prefix(data, "mailto:") {
        reveal_strlit("mailto:");
        lemma_literal_prefix(data, "mailto:");
        lemma_email_match_len(data, 7, Protocol::Mailto);
    } else if has_prefix(data, "xmpp:") {
        reveal_strlit("xmpp:");
        lemma_literal_prefix(data, "xmpp:");
        lemma_email_match_len(data, 5, Protocol::Xmpp);
    } else {
        lemma_email_match_len(data, 0, Protocol::Bare);
    }
}

/// Whether a link may begin at byte `pos` of `text`.
pub fn can_begin_at(text: &str, pos: usize) -> (r: bool)
    ensures
        r == may_begin_at(text.spec_bytes(), pos as int),
{
    if pos == 0 {
        proof {
            lemma_str_chars(text);
        }
        return true;
    }
    match char_before(text, pos) {
        None => false,
        Some(prev) => check_prev(prev),
    }
}

/// Matches a link that begins at byte `index` of `contents`, and returns its
/// target with the number of characters that the link takes from there.
///
/// A link begins only at the start of the text, after white space, or after
/// one of `*`, `_`, `~` and `(`. An index past the end or inside a character
/// gives `None`.
pub fn match_index(contents: &str, index: usize) -> (r: Option<(String, usize)>)
    ensures
        link_view(r) == index_match(contents.spec_bytes(), index as int),
        r is Some ==> match_len(link_view(r)) >= 1,
{
    if !can_begin_at(contents, index) {
        return None;
    }
    let (_, after) = contents.split_at(index);
    assert(after.spec_bytes() == contents.spec_bytes().skip(index as int));
    match_start(after)
}

} // verus!
