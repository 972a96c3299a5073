//! Links that begin with `www.`.

use crate::text::{
    has_prefix, lemma_literal_prefix, lemma_skip_ascii_prefix, link_view, match_chars, match_len,
    starts_with,
};
use crate::url::{
    lemma_link_end_fence, link_after_scheme, link_end, link_match, match_after_scheme,
};
use crate::utils::trim_tail;
use vstd::utf8::*;
use vstd::prelude::*;
use vstd::string::*;

verus! {

/// The text of the link that `data` begins with, if it begins with `www.`,
/// and the length of that text in characters. The host name behind the prefix
/// must hold a period.
pub open spec fn www_text(data: Seq<u8>) -> Option<(Seq<char>, nat)> {
    if has_prefix(data, "www.") {
        link_match(data, 4, false)
    } else {
        None
    }
}

/// The link that `data` begins with, if it begins with `www.`: the target is
/// the matched text behind `http://`, and the length is that of the matched
/// text alone.
pub open spec fn www_match(data: Seq<u8>) -> Option<(Seq<char>, nat)> {
    match www_text(data) {
        None => None,
        Some((text, n)) => Some(("http://"@ + text, n)),
    }
}

/// A link that begins with `www.` keeps at least its `www`.
pub proof fn law_www_match_covers_prefix(data: Seq<u8>)
    requires
        www_text(data) is Some,
    ensures
        match_len(www_text(data)) >= 3,
        match_chars(www_text(data)).len() == match_len(www_text(data)),
{
    reveal_strlit("www.");
    lemma_literal_prefix(data, "www.");
    lemma_link_end_fence(data, 4, false, 4);
    let end = link_end(data, 4, false)->0;
    assert(trim_tail(data, 4) == trim_tail(data, 3));
    assert(trim_tail(data, 3) == 3);
    lemma_skip_ascii_prefix(data.take(end), 3);
}

/// Matches a link that starts with `www.` at the start of `contents`, and
/// returns its text with the length of that text in characters.
pub fn match_www_text<'a>(contents: &'a [u8]) -> (r: Option<(&'a str, usize)>)
    ensures
        match r {
            Some((text, n)) => www_text(contents@) == Some((text@, n as nat)),
            None => www_text(contents@) is None,
        },
{
    if !starts_with(contents, "www.") {
        return None;
    }
    proof {
        reveal_strlit("www.");
        lemma_literal_prefix(contents@, "www.");
    }
    match_after_scheme(contents, 4, false)
}

/// The same for text: the link's text is returned as a part of `text`.
pub fn match_www_str<'a>(text: &'a str) -> (r: Option<(&'a str, usize)>)
    ensures
        match r {
            Some((link, n)) => www_text(text.spec_bytes()) == Some((link@, n as nat)),
            None => www_text(text.spec_bytes()) is None,
        },
{
    if !starts_with(text.as_bytes(), "www.") {
        return None;
    }
    proof {
        reveal_strlit("www.");
        lemma_literal_prefix(text.spec_bytes(), "www.");
    }
    link_after_scheme(text, 4, false)
}

/// Matches a link that starts with `www.` at the start of `contents`, and
/// returns its target with the length in characters of the matched text.
pub fn match_www(contents: &[u8]) -> (r: Option<(String, usize)>)
    ensures
        link_view(r) == www_match(contents@),
{
    match match_www_text(contents) {
        None => None,
        Some((text, n)) => {
            let url = String::from_str("http://").concat(text);
            Some((url, n))
        },
    }
}

} // verus!
