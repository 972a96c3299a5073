//! Addresses: a local part, `@`, and a domain, bare or behind `mailto:` or
//! `xmpp:`.

use crate::ctype::{is_alnum_byte, isalnum, AT, DASH, DOT, LT, PLUS, SLASH, UNDERSCORE};
use crate::text::{
    has_prefix, lemma_ascii_chars, lemma_literal_prefix, link_text, link_view, match_chars,
    match_len, starts_with,
};
use crate::utils::{count_byte, lemma_count_byte_absent, lemma_first_lt_none, trimmed_end};
use vstd::prelude::*;
use vstd::string::*;
use vstd::utf8::*;

verus! {

/// The scheme that an address was written with.
#[derive(Clone, Copy, Debug, PartialEq, Eq, Structural)]
pub enum Protocol {
    Mailto,
    Xmpp,
    Bare,
}

impl Protocol {
    /// Whether a further `@` may stand inside the domain.
    pub open spec fn allows_second_at(self) -> bool {
        self is Xmpp
    }

    /// Whether one `/` may stand inside the domain.
    pub open spec fn allows_slash(self) -> bool {
        self is Xmpp
    }

    /// What is put before the matched text to make the link's target: the
    /// text carries its own scheme unless it was written bare.
    pub open spec fn url_prefix(self) -> Seq<char> {
        match self {
            Protocol::Mailto => Seq::empty(),
            Protocol::Xmpp => Seq::empty(),
            Protocol::Bare => "mailto:"@,
        }
    }

    /// Whether a further `@` may stand inside the domain.
    #[verifier::when_used_as_spec(allows_second_at)]
    pub fn second_at_allowed(self) -> (r: bool)
        ensures
            r == self.allows_second_at(),
    {
        match self {
            Protocol::Xmpp => true,
            _ => false,
        }
    }

    /// Whether one `/` may stand inside the domain.
    #[verifier::when_used_as_spec(allows_slash)]
    pub fn slash_allowed(self) -> (r: bool)
        ensures
            r == self.allows_slash(),
    {
        match self {
            Protocol::Xmpp => true,
            _ => false,
        }
    }

    /// The scheme to put before the matched text.
    pub fn scheme(self) -> (r: String)
        ensures
            r@ == self.url_prefix(),
    {
        match self {
            Protocol::Mailto => String::new(),
            Protocol::Xmpp => String::new(),
            Protocol::Bare => String::from_str("mailto:"),
        }
    }
}

/// Bytes that may stand in the local part of an address.
pub open spec fn is_local_byte(b: u8) -> bool {
    is_alnum_byte(b) || b == DOT || b == PLUS || b == DASH || b == UNDERSCORE
}

/// Where the run of local-part bytes that starts at `from` ends.
pub open spec fn local_end(data: Seq<u8>, from: int) -> int
    decreases data.len() - from,
{
    if 0 <= from < data.len() && is_local_byte(data[from]) {
        local_end(data, from + 1)
    } else {
        from
    }
}

/// Where the domain that is scanned from `i` on ends, or `None` where a
/// further `@` forbids the whole address. Letters, digits, `-` and `_` pass,
/// a `.` passes before a letter or digit, and `protocol` says whether a
/// further `@` and one `/` pass too; the first byte that does not pass ends
/// the domain.
pub open spec fn domain_end(data: Seq<u8>, i: int, slash_seen: bool, protocol: Protocol) -> Option<
    int,
>
    decreases data.len() - i,
{
    if i < 0 || i >= data.len() {
        Some(i)
    } else {
        let c = data[i];
        if is_alnum_byte(c) || c == DASH || c == UNDERSCORE {
            domain_end(data, i + 1, slash_seen, protocol)
        } else if c == AT {
            if protocol.allows_second_at() {
                domain_end(data, i + 1, slash_seen, protocol)
            } else {
                None
            }
        } else if c == DOT && i + 1 < data.len() && is_alnum_byte(data[i + 1]) {
            domain_end(data, i + 1, slash_seen, protocol)
        } else if c == SLASH && protocol.allows_slash() && !slash_seen {
            domain_end(data, i + 1, true, protocol)
        } else {
            Some(i)
        }
    }
}

/// The end of the address whose local part starts at `pos`, if `data` holds
/// one there: a non-empty local part, `@`, and a domain of at least two bytes
/// that holds a period and ends in a letter, a digit or a period.
pub open spec fn email_end(data: Seq<u8>, pos: int, protocol: Protocol) -> Option<int> {
    let at = local_end(data, pos);
    if pos < 0 || at >= data.len() || at == pos || data[at] != AT {
        None
    } else {
        match domain_end(data, at + 1, false, protocol) {
            None => None,
            Some(end) => if end - (at + 1) >= 2 && count_byte(data.subrange(at + 1, end), DOT) >= 1
                && (is_alnum_byte(data[end - 1]) || data[end - 1] == DOT) {
                Some(end)
            } else {
                None
            },
        }
    }
}

/// The link for the address whose local part starts at `pos`: its target,
/// which is the text `data[..end]` behind the scheme that `protocol` adds, and
/// the length of that text in characters.
pub open spec fn email_match(data: Seq<u8>, pos: int, protocol: Protocol) -> Option<
    (Seq<char>, nat),
> {
    match email_end(data, pos, protocol) {
        None => None,
        Some(end) => if valid_utf8(data.take(end)) {
            let text = decode_utf8(data.take(end));
            Some((protocol.url_prefix() + text, text.len()))
        } else {
            None
        },
    }
}

/// Bytes that may stand in the domain of an address under some protocol.
pub open spec fn is_domain_byte(b: u8) -> bool {
    is_alnum_byte(b) || b == DASH || b == UNDERSCORE || b == AT || b == DOT || b == SLASH
}

/// The local part that is scanned from `from` on ends within the buffer and
/// holds local-part bytes only.
pub proof fn lemma_local_end(data: Seq<u8>, from: int)
    requires
        0 <= from <= data.len(),
    ensures
        from <= local_end(data, from) <= data.len(),
        forall|i: int| from <= i < local_end(data, from) ==> is_local_byte(data[i]),
        local_end(data, from) < data.len() ==> !is_local_byte(data[local_end(data, from)]),
    decreases data.len() - from,
{
    if from < data.len() && is_local_byte(data[from]) {
        lemma_local_end(data, from + 1);
    }
}

/// The domain that is scanned from `i` on ends within the buffer and holds
/// domain bytes only.
pub proof fn lemma_domain_end(data: Seq<u8>, i: int, slash_seen: bool, protocol: Protocol)
    requires
        0 <= i <= data.len(),
        domain_end(data, i, slash_seen, protocol) is Some,
    ensures
        i <= domain_end(data, i, slash_seen, protocol)->0 <= data.len(),
        forall|j: int|
            i <= j < domain_end(data, i, slash_seen, protocol)->0 ==> is_domain_byte(data[j]),
    decreases data.len() - i,
{
    if i < data.len() {
        let c = data[i];
        if is_alnum_byte(c) || c == DASH || c == UNDERSCORE {
            lemma_domain_end(data, i + 1, slash_seen, protocol);
        } else if c == AT {
            lemma_domain_end(data, i + 1, slash_seen, protocol);
        } else if c == DOT && i + 1 < data.len() && is_alnum_byte(data[i + 1]) {
            lemma_domain_end(data, i + 1, slash_seen, protocol);
        } else if c == SLASH && protocol.allows_slash() && !slash_seen {
            lemma_domain_end(data, i + 1, true, protocol);
        }
    }
}

/// An address lies within the buffer, is longer than its local part, and is
/// ASCII from the start of its local part to its end.
pub proof fn lemma_email_end(data: Seq<u8>, pos: int, protocol: Protocol)
    requires
        email_end(data, pos, protocol) is Some,
    ensures
        0 <= pos < local_end(data, pos) < email_end(data, pos, protocol)->0 <= data.len(),
        data[local_end(data, pos)] == AT,
        forall|i: int| pos <= i < email_end(data, pos, protocol)->0 ==> data[i] < 0x80,
{
    let at = local_end(data, pos);
    let end = email_end(data, pos, protocol)->0;
    lemma_local_end(data, pos);
    lemma_domain_end(data, at + 1, false, protocol);
    assert forall|i: int| pos <= i < end implies data[i] < 0x80 by {
        if i < at {
            assert(is_local_byte(data[i]));
        } else if i > at {
            assert(is_domain_byte(data[i]));
        }
    }
}

/// An address behind an ASCII scheme is ASCII throughout: its length in
/// characters is its length in bytes, which is more than that of the scheme
/// and the local part together.
pub proof fn lemma_email_match_len(data: Seq<u8>, pos: int, protocol: Protocol)
    requires
        email_match(data, pos, protocol) is Some,
        forall|i: int| 0 <= i < pos ==> data[i] < 0x80,
    ensures
        email_end(data, pos, protocol) == Some(match_len(email_match(data, pos, protocol)) as int),
        match_len(email_match(data, pos, protocol)) > local_end(data, pos) > pos,
{
    let end = email_end(data, pos, protocol)->0;
    lemma_email_end(data, pos, protocol);
    lemma_ascii_chars(data.take(end));
}

/// A domain never ends in a period: a period passes only before a letter or
/// digit, which passes too.
proof fn lemma_domain_end_last(data: Seq<u8>, i: int, slash_seen: bool, protocol: Protocol)
    requires
        0 <= i <= data.len(),
        domain_end(data, i, slash_seen, protocol) is Some,
    ensures
        i < data.len() && is_alnum_byte(data[i]) ==> domain_end(data, i, slash_seen, protocol)->0
            > i,
        domain_end(data, i, slash_seen, protocol)->0 > i ==> data[domain_end(
            data,
            i,
            slash_seen,
            protocol,
        )->0 - 1] != DOT,
    decreases data.len() - i,
{
    if i < data.len() {
        let c = data[i];
        lemma_domain_end(data, i, slash_seen, protocol);
        if is_alnum_byte(c) || c == DASH || c == UNDERSCORE {
            lemma_domain_end(data, i + 1, slash_seen, protocol);
            lemma_domain_end_last(data, i + 1, slash_seen, protocol);
        } else if c == AT {
            lemma_domain_end(data, i + 1, slash_seen, protocol);
            lemma_domain_end_last(data, i + 1, slash_seen, protocol);
        } else if c == DOT && i + 1 < data.len() && is_alnum_byte(data[i + 1]) {
            lemma_domain_end(data, i + 1, slash_seen, protocol);
            lemma_domain_end_last(data, i + 1, slash_seen, protocol);
        } else if c == SLASH && protocol.allows_slash() && !slash_seen {
            lemma_domain_end(data, i + 1, true, protocol);
            lemma_domain_end_last(data, i + 1, true, protocol);
        }
    }
}

/// An address needs no trimming: it ends in a letter or digit, and the
/// trimmer, given the address from its `@` on, leaves the end where it is.
pub proof fn law_email_is_trimmed(data: Seq<u8>, pos: int, protocol: Protocol)
    requires
        email_end(data, pos, protocol) is Some,
    ensures
        ({
            let at = local_end(data, pos);
            let end = email_end(data, pos, protocol)->0;
            &&& is_alnum_byte(data[end - 1])
            &&& trimmed_end(data.skip(at), end - at) == end - at
        }),
{
    let at = local_end(data, pos);
    let end = email_end(data, pos, protocol)->0;
    lemma_email_end(data, pos, protocol);
    lemma_domain_end(data, at + 1, false, protocol);
    lemma_domain_end_last(data, at + 1, false, protocol);
    let domain = data.skip(at);
    assert forall|i: int| 0 <= i < end - at implies domain[i] != LT by {
        if i > 0 {
            assert(is_domain_byte(data[at + i]));
        }
    }
    lemma_first_lt_none(domain, 0, end - at);
    assert(domain[end - at - 1] == data[end - 1]);
}

/// A bare address is ASCII throughout, so it is always text, and its length
/// in characters is its length in bytes.
pub proof fn lemma_bare_email(data: Seq<u8>)
    ensures
        match email_end(data, 0, Protocol::Bare) {
            Some(end) => 0 < end <= data.len() && valid_utf8(data.take(end)) && email_match(
                data,
                0,
                Protocol::Bare,
            ) == Some(("mailto:"@ + decode_utf8(data.take(end)), end as nat)),
            None => email_match(data, 0, Protocol::Bare) is None,
        },
{
    if email_end(data, 0, Protocol::Bare) is Some {
        let end = email_end(data, 0, Protocol::Bare)->0;
        lemma_email_end(data, 0, Protocol::Bare);
        lemma_ascii_chars(data.take(end));
    }
}

/// An address whose domain holds no period is no link.
pub proof fn law_email_needs_period(data: Seq<u8>, pos: int, protocol: Protocol)
    requires
        0 <= pos <= data.len(),
        forall|i: int| local_end(data, pos) < i < data.len() ==> data[i] != DOT,
    ensures
        email_match(data, pos, protocol) is None,
{
    let at = local_end(data, pos);
    lemma_local_end(data, pos);
    if at < data.len() && domain_end(data, at + 1, false, protocol) is Some {
        let end = domain_end(data, at + 1, false, protocol)->0;
        lemma_domain_end(data, at + 1, false, protocol);
        lemma_count_byte_absent(data.subrange(at + 1, end), DOT);
    }
}

/// Whether `b` may stand in the local part of an address.
#[verifier::when_used_as_spec(is_local_byte)]
pub fn is_local(b: u8) -> (r: bool)
    ensures
        r == is_local_byte(b),
{
    isalnum(b) || b == DOT || b == PLUS || b == DASH || b == UNDERSCORE
}

/// Matches an address whose local part starts at `pos`; what stands before
/// `pos` is taken as the scheme that `protocol` names.
pub fn match_any_email(contents: &[u8], pos: usize, protocol: Protocol) -> (r: Option<
    (String, usize),
>)
    ensures
        link_view(r) == email_match(contents@, pos as int, protocol),
{
    let size = contents.len();
    let mut at = pos;
    while at < size && is_local(contents[at])
        invariant
            pos <= at,
            size == contents@.len(),
            local_end(contents@, pos as int) == local_end(contents@, at as int),
        decreases size - at,
    {
        at += 1;
    }
    if at >= size || at == pos || contents[at] != AT {
        return None;
    }
    let mut link_end = at + 1;
    let mut np: usize = 0;
    let mut slash_seen = false;
    while link_end < size
        invariant_except_break
            at < link_end <= size == contents@.len(),
            pos < at == local_end(contents@, pos as int),
            contents@[at as int] == AT,
            np <= link_end,
            np == count_byte(contents@.subrange(at + 1, link_end as int), DOT),
            domain_end(contents@, at + 1, false, protocol) == domain_end(
                contents@,
                link_end as int,
                slash_seen,
                protocol,
            ),
        ensures
            at < link_end <= size == contents@.len(),
            np == count_byte(contents@.subrange(at + 1, link_end as int), DOT),
            domain_end(contents@, at + 1, false, protocol) == Some(link_end as int),
        decreases size - link_end,
    {
        let c = contents[link_end];
        proof {
            assert(contents@.subrange(at + 1, link_end + 1).drop_last() =~= contents@.subrange(
                at + 1,
                link_end as int,
            ));
        }
        if isalnum(c) {
        } else if c == AT {
            if !protocol.second_at_allowed() {
                assert(domain_end(contents@, link_end as int, slash_seen, protocol) is None);
                return None;
            }
        } else if c == DOT && link_end + 1 < size && isalnum(contents[link_end + 1]) {
            np += 1;
        } else if c == SLASH && protocol.slash_allowed() && !slash_seen {
            slash_seen = true;
        } else if c != DASH && c != UNDERSCORE {
            break ;
        }
        link_end += 1;
    }
    if link_end - (at + 1) < 2 || np == 0 || !(isalnum(contents[link_end - 1]) || contents[link_end
        - 1] == DOT) {
        return None;
    }
    match link_text(contents, link_end) {
        None => None,
        Some((text, n)) => {
            let url = protocol.scheme().concat(text.as_str());
            Some((url, n))
        },
    }
}

/// The link for the address that `data` begins with, bare or behind
/// `mailto:` or `xmpp:`. An address behind a scheme is matched with that
/// scheme, never as a bare one, so its target carries the scheme once.
pub open spec fn address_match(data: Seq<u8>) -> Option<(Seq<char>, nat)> {
    if has_prefix(data, "mailto:") {
        email_match(data, 7, Protocol::Mailto)
    } else if has_prefix(data, "xmpp:") {
        email_match(data, 5, Protocol::Xmpp)
    } else {
        email_match(data, 0, Protocol::Bare)
    }
}

/// An address behind `mailto:` or `xmpp:` is matched with that scheme, not
/// as a bare address: its target is the matched text itself, with no second
/// scheme before it, and so is as long as the match.
pub proof fn law_scheme_is_not_doubled(data: Seq<u8>)
    requires
        has_prefix(data, "mailto:") || has_prefix(data, "xmpp:"),
        address_match(data) is Some,
    ensures
        address_match(data) == if has_prefix(data, "mailto:") {
            email_match(data, 7, Protocol::Mailto)
        } else {
            email_match(data, 5, Protocol::Xmpp)
        },
        match_chars(address_match(data)) == decode_utf8(
            data.take(match_len(address_match(data)) as int),
        ),
        match_chars(address_match(data)).len() == match_len(address_match(data)),
{
    if has_prefix(data, "mailto:") {
        reveal_strlit("mailto:");
        lemma_literal_prefix(data, "mailto:");
        lemma_email_match_len(data, 7, Protocol::Mailto);
        let text = decode_utf8(data.take(email_end(data, 7, Protocol::Mailto)->0));
        assert(Seq::<char>::empty() + text =~= text);
    } else {
        reveal_strlit("xmpp:");
        lemma_literal_prefix(data, "xmpp:");
        lemma_email_match_len(data, 5, Protocol::Xmpp);
        let text = decode_utf8(data.take(email_end(data, 5, Protocol::Xmpp)->0));
        assert(Seq::<char>::empty() + text =~= text);
    }
}

/// Matches an address at the start of `contents`, bare or behind `mailto:`
/// or `xmpp:`.
pub fn match_email(contents: &[u8]) -> (r: Option<(String, usize)>)
    ensures
        link_view(r) == address_match(contents@),
{
    if starts_with(contents, "mailto:") {
        match_any_email(contents, 7, Protocol::Mailto)
    } else if starts_with(contents, "xmpp:") {
        match_any_email(contents, 5, Protocol::Xmpp)
    } else {
        match_any_email(contents, 0, Protocol::Bare)
    }
}

/// Matches an address behind `mailto:` at the start of `contents`.
pub fn match_mailto(contents: &[u8]) -> (r: Option<(String, usize)>)
    ensures
        link_view(r) == if has_prefix(contents@, "mailto:") {
            email_match(contents@, 7, Protocol::Mailto)
        } else {
            None
        },
{
    if !starts_with(contents, "mailto:") {
        return None;
    }
    match_any_email(contents, 7, Protocol::Mailto)
}

/// Matches an address behind `xmpp:` at the start of `contents`.
pub fn match_xmpp(contents: &[u8]) -> (r: Option<(String, usize)>)
    ensures
        link_view(r) == if has_prefix(contents@, "xmpp:") {
            email_match(contents@, 5, Protocol::Xmpp)
        } else {
            None
        },
{
    if !starts_with(contents, "xmpp:") {
        return None;
    }
    match_any_email(contents, 5, Protocol::Xmpp)
}

/// Matches a bare address at the start of `contents`.
pub fn match_bare(contents: &[u8]) -> (r: Option<(String, usize)>)
    ensures
        link_view(r) == email_match(contents@, 0, Protocol::Bare),
{
    match_any_email(contents, 0, Protocol::Bare)
}

} // verus!
