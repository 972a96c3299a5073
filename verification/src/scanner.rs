//! Links found from an anchor character inside a text.
//!
//! A text is probed where one of three characters stands: `w`, which may
//! begin `www.`; `:`, which may follow a scheme's name; and `@`, which may
//! follow the local part of an address. For the last two the link begins
//! before the anchor, so a match says how far it reaches back.

use crate::autolinks::{can_begin_at, may_begin_at};
use crate::ctype::{AT, COLON, LOWER_W};
use crate::email::{
    email_match, is_local, is_local_byte, lemma_bare_email, lemma_email_match_len, local_end,
    match_any_email, Protocol,
};
use crate::text::{
    ends_with, has_suffix, lemma_boundary_split, lemma_literal_suffix, lemma_str_chars, link_text,
    match_chars, match_len,
};
use crate::url::{law_url_match_covers_scheme, match_url_str, url_match};
use crate::www::{law_www_match_covers_prefix, match_www_str, www_text};
use vstd::prelude::*;
use vstd::slice::slice_subrange;
use vstd::string::*;
use vstd::utf8::*;

verus! {

/// A link found at an anchor.
#[derive(Debug, Clone, PartialEq, Eq)]
pub struct MatchResult {
    /// Where the link leads, with its scheme.
    pub target_url: String,
    /// The text of the source that shows as the link.
    pub label_text: String,
    /// How many characters of the link stand before the anchor.
    pub backward_chars: usize,
    /// How many characters of the link stand at and after the anchor.
    pub forward_chars: usize,
}

/// A link found at an anchor, as plain values.
pub struct LinkView {
    pub target_url: Seq<char>,
    pub label_text: Seq<char>,
    pub backward_chars: nat,
    pub forward_chars: nat,
}

impl View for MatchResult {
    type V = LinkView;

    /// The two texts as characters, the two counts as numbers.
    open spec fn view(&self) -> LinkView {
        LinkView {
            target_url: self.target_url@,
            label_text: self.label_text@,
            backward_chars: self.backward_chars as nat,
            forward_chars: self.forward_chars as nat,
        }
    }
}

/// What a scanner returns, as plain values.
pub open spec fn scan_view(r: Option<MatchResult>) -> Option<LinkView> {
    match r {
        Some(m) => Some(m@),
        None => None,
    }
}

/// The schemes whose names are looked for before a `:`.
#[derive(Clone, Copy, Debug, PartialEq, Eq, Structural)]
pub enum Scheme {
    Mailto,
    Xmpp,
    Http,
    Https,
    Ftp,
}

impl Scheme {
    /// The number of characters in the scheme's name.
    pub open spec fn spec_name_len(self) -> nat {
        match self {
            Scheme::Mailto => 6,
            Scheme::Xmpp => 4,
            Scheme::Http => 4,
            Scheme::Https => 5,
            Scheme::Ftp => 3,
        }
    }

    /// The number of characters in the scheme's name.
    pub fn name_len(self) -> (n: usize)
        ensures
            n == self.spec_name_len(),
    {
        match self {
            Scheme::Mailto => 6,
            Scheme::Xmpp => 4,
            Scheme::Http => 4,
            Scheme::Https => 5,
            Scheme::Ftp => 3,
        }
    }
}

/// The scheme whose name `before` ends with, if it ends with one.
pub open spec fn scheme_named(before: Seq<u8>) -> Option<Scheme> {
    if has_suffix(before, "mailto") {
        Some(Scheme::Mailto)
    } else if has_suffix(before, "xmpp") {
        Some(Scheme::Xmpp)
    } else if has_suffix(before, "https") {
        Some(Scheme::Https)
    } else if has_suffix(before, "http") {
        Some(Scheme::Http)
    } else if has_suffix(before, "ftp") {
        Some(Scheme::Ftp)
    } else {
        None
    }
}

/// What the text holds from the start of `scheme`'s name on, where that name
/// begins at `start`: an address for `mailto` and `xmpp`, else a link with a
/// scheme.
pub open spec fn scheme_match(data: Seq<u8>, start: int, scheme: Scheme) -> Option<
    (Seq<char>, nat),
> {
    match scheme {
        Scheme::Mailto => email_match(data.skip(start), 7, Protocol::Mailto),
        Scheme::Xmpp => email_match(data.skip(start), 5, Protocol::Xmpp),
        _ => url_match(data.skip(start)),
    }
}

/// The link around a `:` at `anchor`: the text before the anchor ends with a
/// scheme's name, a link may begin where that name begins, and the text from
/// there on is matched. The link shows as its target.
pub open spec fn protocol_scan(data: Seq<u8>, anchor: int) -> Option<LinkView> {
    if 0 <= anchor < data.len() && data[anchor] == COLON {
        match scheme_named(data.take(anchor)) {
            None => None,
            Some(scheme) => {
                let start = anchor - scheme.spec_name_len();
                let found = scheme_match(data, start, scheme);
                if may_begin_at(data, start) && found is Some {
                    Some(
                        LinkView {
                            target_url: match_chars(found),
                            label_text: match_chars(found),
                            backward_chars: scheme.spec_name_len(),
                            forward_chars: (match_len(found) - scheme.spec_name_len()) as nat,
                        },
                    )
                } else {
                    None
                }
            },
        }
    } else {
        None
    }
}

/// The link that begins with `www.` at `anchor`, where a link may begin
/// there. It shows as the matched text and leads to that text behind
/// `http://`.
pub open spec fn www_scan(data: Seq<u8>, anchor: int) -> Option<LinkView> {
    if 0 <= anchor <= data.len() && may_begin_at(data, anchor) {
        match www_text(data.skip(anchor)) {
            None => None,
            Some((text, n)) => Some(
                LinkView {
                    target_url: "http://"@ + text,
                    label_text: text,
                    backward_chars: 0,
                    forward_chars: n,
                },
            ),
        }
    } else {
        None
    }
}

/// Where the run of local-part bytes that ends before `anchor` begins.
pub open spec fn local_start(data: Seq<u8>, anchor: int) -> int
    decreases anchor,
{
    if 0 < anchor <= data.len() && is_local_byte(data[anchor - 1]) {
        local_start(data, anchor - 1)
    } else {
        anchor
    }
}

/// The link around an `@` at `anchor`: the local part is the run of
/// local-part bytes before the anchor, which must not be empty, a link may
/// begin where that run begins, and the text from there on is matched as a
/// bare address. The link shows as the address and leads to it behind
/// `mailto:`.
pub open spec fn bare_email_scan(data: Seq<u8>, anchor: int) -> Option<LinkView> {
    if 0 <= anchor < data.len() && data[anchor] == AT {
        let start = local_start(data, anchor);
        let found = email_match(data.skip(start), 0, Protocol::Bare);
        if start < anchor && may_begin_at(data, start) && found is Some {
            Some(
                LinkView {
                    target_url: match_chars(found),
                    label_text: match_chars(found).skip(7),
                    backward_chars: (anchor - start) as nat,
                    forward_chars: (match_len(found) - (anchor - start)) as nat,
                },
            )
        } else {
            None
        }
    } else {
        None
    }
}

/// The link at the anchor at `pos`, by the character that stands there.
pub open spec fn scan_at(data: Seq<u8>, pos: int) -> Option<LinkView> {
    if pos < 0 || pos >= data.len() {
        None
    } else if data[pos] == COLON {
        protocol_scan(data, pos)
    } else if data[pos] == AT {
        bare_email_scan(data, pos)
    } else if data[pos] == LOWER_W {
        www_scan(data, pos)
    } else {
        None
    }
}

/// The first anchor at or after `from` at which there is a link, with that
/// link.
pub open spec fn first_link(data: Seq<u8>, from: int) -> Option<(int, LinkView)>
    decreases data.len() - from,
{
    if from < 0 || from >= data.len() {
        None
    } else {
        match scan_at(data, from) {
            Some(m) => Some((from, m)),
            None => first_link(data, from + 1),
        }
    }
}

/// What a sweep returns, as plain values.
pub open spec fn sweep_view(r: Option<(usize, MatchResult)>) -> Option<(int, LinkView)> {
    match r {
        Some((pos, m)) => Some((pos as int, m@)),
        None => None,
    }
}

/// The local part that is scanned back from the anchor begins within the
/// text and holds local-part bytes only.
proof fn lemma_local_start(data: Seq<u8>, anchor: int)
    requires
        0 <= anchor <= data.len(),
    ensures
        0 <= local_start(data, anchor) <= anchor,
        forall|i: int| local_start(data, anchor) <= i < anchor ==> is_local_byte(data[i]),
    decreases anchor,
{
    if 0 < anchor && is_local_byte(data[anchor - 1]) {
        lemma_local_start(data, anchor - 1);
    }
}

/// A run of local-part bytes that a byte of another kind follows ends there.
proof fn lemma_local_end_at(data: Seq<u8>, from: int, to: int)
    requires
        0 <= from <= to < data.len(),
        forall|i: int| from <= i < to ==> is_local_byte(data[i]),
        !is_local_byte(data[to]),
    ensures
        local_end(data, from) == to,
    decreases to - from,
{
    if from < to {
        lemma_local_end_at(data, from + 1, to);
    }
}

/// Every link found at an anchor takes at least the anchor itself: the
/// matched text is longer than what stands before the anchor.
pub proof fn law_match_reaches_anchor(data: Seq<u8>, pos: int)
    requires
        scan_at(data, pos) is Some,
    ensures
        scan_at(data, pos)->0.forward_chars >= 1,
{
    if data[pos] == COLON {
        lemma_protocol_len(data, pos);
    } else if data[pos] == AT {
        lemma_bare_len(data, pos);
    } else {
        law_www_match_covers_prefix(data.skip(pos));
    }
}

/// The sweep finds the first anchor with a link: the link it returns is the
/// one at the anchor it returns, no anchor before that one has a link, and
/// where it returns nothing no anchor has one.
pub proof fn law_sweep_finds_first(data: Seq<u8>, from: int)
    requires
        0 <= from,
    ensures
        match first_link(data, from) {
            Some((pos, m)) => {
                &&& from <= pos < data.len()
                &&& scan_at(data, pos) == Some(m)
                &&& forall|p: int| from <= p < pos ==> scan_at(data, p) is None
            },
            None => forall|p: int| from <= p ==> scan_at(data, p) is None,
        },
    decreases data.len() - from,
{
    if from < data.len() && scan_at(data, from) is None {
        law_sweep_finds_first(data, from + 1);
    }
}

/// The name of a scheme before the anchor is ASCII and lies within the text.
proof fn lemma_scheme_named(before: Seq<u8>)
    requires
        scheme_named(before) is Some,
    ensures
        ({
            let scheme = scheme_named(before)->0;
            let n = scheme.spec_name_len() as int;
            &&& n <= before.len()
            &&& forall|i: int| before.len() - n <= i < before.len() ==> before[i] < 0x80
        }),
{
    reveal_strlit("mailto");
    reveal_strlit("xmpp");
    reveal_strlit("https");
    reveal_strlit("http");
    reveal_strlit("ftp");
    let scheme = scheme_named(before)->0;
    let n = scheme.spec_name_len() as int;
    match scheme {
        Scheme::Mailto => {
            lemma_literal_suffix(before, "mailto");
        },
        Scheme::Xmpp => {
            lemma_literal_suffix(before, "xmpp");
        },
        Scheme::Https => {
            lemma_literal_suffix(before, "https");
        },
        Scheme::Http => {
            lemma_literal_suffix(before, "http");
        },
        Scheme::Ftp => {
            lemma_literal_suffix(before, "ftp");
        },
    }
}

/// What is matched from a scheme's name on is longer than that name.
proof fn lemma_protocol_len(data: Seq<u8>, anchor: int)
    requires
        0 <= anchor < data.len(),
        data[anchor] == COLON,
        scheme_named(data.take(anchor)) is Some,
        scheme_match(
            data,
            anchor - scheme_named(data.take(anchor))->0.spec_name_len(),
            scheme_named(data.take(anchor))->0,
        ) is Some,
    ensures
        ({
            let scheme = scheme_named(data.take(anchor))->0;
            let start = anchor - scheme.spec_name_len();
            &&& 0 <= start
            &&& match_len(scheme_match(data, start, scheme)) > scheme.spec_name_len()
        }),
{
    let before = data.take(anchor);
    let scheme = scheme_named(before)->0;
    let n = scheme.spec_name_len() as int;
    let start = anchor - n;
    lemma_scheme_named(before);
    let cand = data.skip(start);
    assert forall|i: int| 0 <= i <= n implies cand[i] < 0x80 by {
        if i < n {
            assert(cand[i] == before[start + i]);
        }
    }
    match scheme {
        Scheme::Mailto => {
            lemma_email_match_len(cand, 7, Protocol::Mailto);
        },
        Scheme::Xmpp => {
            lemma_email_match_len(cand, 5, Protocol::Xmpp);
        },
        _ => {
            law_url_match_covers_scheme(cand);
        },
    }
}

/// What is matched from a local part on is longer than that local part, is
/// ASCII, and leads to the address behind `mailto:`.
proof fn lemma_bare_len(data: Seq<u8>, anchor: int)
    requires
        0 <= anchor < data.len(),
        data[anchor] == AT,
        local_start(data, anchor) < anchor,
        email_match(data.skip(local_start(data, anchor)), 0, Protocol::Bare) is Some,
    ensures
        ({
            let start = local_start(data, anchor);
            let cand = data.skip(start);
            let found = email_match(cand, 0, Protocol::Bare);
            &&& 0 <= start
            &&& anchor - start < match_len(found) <= cand.len()
            &&& valid_utf8(cand.take(match_len(found) as int))
            &&& match_chars(found) == "mailto:"@ + decode_utf8(cand.take(match_len(found) as int))
        }),
{
    let start = local_start(data, anchor);
    let cand = data.skip(start);
    lemma_local_start(data, anchor);
    lemma_local_end_at(cand, 0, anchor - start);
    lemma_bare_email(cand);
    lemma_email_match_len(cand, 0, Protocol::Bare);
}

/// Finds which scheme's name stands right before byte `end` of `data`;
/// none where `data` has fewer than `end` bytes.
pub fn scheme_before(data: &[u8], end: usize) -> (r: Option<Scheme>)
    ensures
        r == if end <= data@.len() {
            scheme_named(data@.take(end as int))
        } else {
            None
        },
{
    if ends_with(data, end, "mailto") {
        Some(Scheme::Mailto)
    } else if ends_with(data, end, "xmpp") {
        Some(Scheme::Xmpp)
    } else if ends_with(data, end, "https") {
        Some(Scheme::Https)
    } else if ends_with(data, end, "http") {
        Some(Scheme::Http)
    } else if ends_with(data, end, "ftp") {
        Some(Scheme::Ftp)
    } else {
        None
    }
}

/// The scanner for links that begin with `www.`.
pub struct WwwScanner;

impl WwwScanner {
    /// Looks for a link that begins at byte `anchor` of `text`.
    pub fn run(text: &str, anchor: usize) -> (r: Option<MatchResult>)
        ensures
            scan_view(r) == www_scan(text.spec_bytes(), anchor as int),
            r is Some ==> r->0.forward_chars >= 1,
    {
        if !can_begin_at(text, anchor) {
            return None;
        }
        proof {
            lemma_str_chars(text);
            lemma_boundary_split(text.spec_bytes(), anchor as int);
        }
        let (_, after) = text.split_at(anchor);
        assert(after.spec_bytes() == text.spec_bytes().skip(anchor as int));
        match match_www_str(after) {
            None => None,
            Some((label, n)) => {
                proof {
                    law_www_match_covers_prefix(after.spec_bytes());
                }
                Some(
                    MatchResult {
                        target_url: String::from_str("http://").concat(label),
                        label_text: label.to_owned(),
                        backward_chars: 0,
                        forward_chars: n,
                    },
                )
            },
        }
    }
}

/// The scanner for links with a scheme, found from the `:` behind the
/// scheme's name.
pub struct ProtocolScanner;

impl ProtocolScanner {
    /// Looks for a link around the `:` at byte `anchor` of `text`.
    pub fn run(text: &str, anchor: usize) -> (r: Option<MatchResult>)
        ensures
            scan_view(r) == protocol_scan(text.spec_bytes(), anchor as int),
            r is Some ==> r->0.forward_chars >= 1,
    {
        let bytes = text.as_bytes();
        if anchor >= bytes.len() || bytes[anchor] != COLON {
            return None;
        }
        let scheme = match scheme_before(bytes, anchor) {
            None => {
                return None;
            },
            Some(s) => s,
        };
        let name_len = scheme.name_len();
        proof {
            lemma_scheme_named(bytes@.take(anchor as int));
        }
        let start = anchor - name_len;
        if !can_begin_at(text, start) {
            return None;
        }
        proof {
            lemma_str_chars(text);
            lemma_boundary_split(text.spec_bytes(), start as int);
        }
        let (_, from_scheme) = text.split_at(start);
        assert(from_scheme.spec_bytes() == bytes@.skip(start as int));
        let found = match scheme {
            Scheme::Mailto => match_any_email(from_scheme.as_bytes(), 7, Protocol::Mailto),
            Scheme::Xmpp => match_any_email(from_scheme.as_bytes(), 5, Protocol::Xmpp),
            _ => match match_url_str(from_scheme) {
                None => None,
                Some((link, n)) => Some((link.to_owned(), n)),
            },
        };
        match found {
            None => None,
            Some((url, n)) => {
                proof {
                    lemma_protocol_len(bytes@, anchor as int);
                }
                Some(
                    MatchResult {
                        label_text: url.clone(),
                        target_url: url,
                        backward_chars: name_len,
                        forward_chars: n - name_len,
                    },
                )
            },
        }
    }
}

/// The scanner for bare addresses, found from their `@`.
pub struct BareEmailScanner;

impl BareEmailScanner {
    /// Looks for an address around the `@` at byte `anchor` of `text`.
    pub fn run(text: &str, anchor: usize) -> (r: Option<MatchResult>)
        ensures
            scan_view(r) == bare_email_scan(text.spec_bytes(), anchor as int),
            r is Some ==> r->0.forward_chars >= 1,
    {
        let bytes = text.as_bytes();
        if anchor >= bytes.len() || bytes[anchor] != AT {
            return None;
        }
        let mut start = anchor;
        while start > 0 && is_local(bytes[start - 1])
            invariant
                start <= anchor < bytes@.len(),
                local_start(bytes@, anchor as int) == local_start(bytes@, start as int),
            decreases start,
        {
            start -= 1;
        }
        if start == anchor || !can_begin_at(text, start) {
            return None;
        }
        let local_len = anchor - start;
        let cand = slice_subrange(bytes, start, bytes.len());
        assert(cand@ == bytes@.skip(start as int));
        match match_any_email(cand, 0, Protocol::Bare) {
            None => None,
            Some((url, n)) => {
                proof {
                    lemma_bare_len(bytes@, anchor as int);
                    reveal_strlit("mailto:");
                    assert(url@.skip(7) =~= decode_utf8(cand@.take(n as int)));
                }
                match link_text(cand, n) {
                    None => None,
                    Some((label, _)) => Some(
                        MatchResult {
                            target_url: url,
                            label_text: label,
                            backward_chars: local_len,
                            forward_chars: n - local_len,
                        },
                    ),
                }
            },
        }
    }
}

/// Looks for a link at byte `pos` of `text`, by the anchor that stands there.
pub fn match_at(text: &str, pos: usize) -> (r: Option<MatchResult>)
    ensures
        scan_view(r) == scan_at(text.spec_bytes(), pos as int),
        r is Some ==> r->0.forward_chars >= 1,
{
    let bytes = text.as_bytes();
    if pos >= bytes.len() {
        return None;
    }
    let b = bytes[pos];
    if b == COLON {
        ProtocolScanner::run(text, pos)
    } else if b == AT {
        BareEmailScanner::run(text, pos)
    } else if b == LOWER_W {
        WwwScanner::run(text, pos)
    } else {
        None
    }
}

/// Sweeps `text` from its start for the first anchor at which there is a
/// link, and returns the byte offset of that anchor with the link.
pub fn find_autolink(text: &str) -> (r: Option<(usize, MatchResult)>)
    ensures
        sweep_view(r) == first_link(text.spec_bytes(), 0),
        match r {
            Some((_, m)) => m.forward_chars >= 1,
            None => true,
        },
{
    let len = text.as_bytes().len();
    let mut pos: usize = 0;
    while pos < len
        invariant
            pos <= len == text.spec_bytes().len(),
            first_link(text.spec_bytes(), 0) == first_link(text.spec_bytes(), pos as int),
        decreases len - pos,
    {
        if let Some(m) = match_at(text, pos) {
            return Some((pos, m));
        }
        pos += 1;
    }
    None
}

} // verus!
