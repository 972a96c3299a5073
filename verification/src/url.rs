//! Links that begin with a scheme: `http://`, `https://` and `ftp://`.

use crate::ctype::{is_alpha_byte, is_space_char, is_whitespace, AMP, LT};
use crate::text::{
    char_len_utf8, has_prefix, lemma_ascii_byte_boundary, lemma_boundary_split,
    lemma_decode_encode, lemma_encode_injective, lemma_literal_prefix, lemma_prefix_split,
    lemma_skip_ascii_prefix, lemma_skip_chars, lemma_str_chars, lemma_utf8_len_add,
    lemma_utf8_len_step, link_view, match_chars, match_len, starts_with, str_from_utf8, utf8_len,
};
use crate::utils::{
    autolink_delim, host_chars, host_name_len, lemma_first_stop, lemma_trimmed_end_bounds,
    lemma_trimmed_end_fence, trim_tail, trimmed_end,
};
use vstd::prelude::*;
use vstd::std_specs::iter::IteratorSpec;
use vstd::string::*;
use vstd::utf8::*;

verus! {

/// Index of the first white-space character at or after `from`, or the
/// length of `cs` where there is none.
pub open spec fn first_space(cs: Seq<char>, from: int) -> int
    decreases cs.len() - from,
{
    if from < 0 || from >= cs.len() {
        cs.len() as int
    } else if is_space_char(cs[from]) {
        from
    } else {
        first_space(cs, from + 1)
    }
}

/// Where the link ends whose scheme takes the first `scheme_len` characters
/// of the text `data`, in bytes: the host name is measured behind the scheme,
/// the link then runs on to the next white space, and what trails is trimmed.
/// `None` where no host name is accepted.
pub open spec fn link_end(data: Seq<u8>, scheme_len: int, allow_short: bool) -> Option<int> {
    let cs = decode_utf8(data);
    match host_chars(cs.skip(scheme_len), allow_short) {
        None => None,
        Some(host) => Some(
            trimmed_end(data, utf8_len(cs.take(first_space(cs, scheme_len + host))) as int),
        ),
    }
}

/// The text of that link and its length in characters. Bytes that are not
/// UTF-8 hold no link.
pub open spec fn link_match(data: Seq<u8>, scheme_len: int, allow_short: bool) -> Option<
    (Seq<char>, nat),
> {
    if !valid_utf8(data) {
        None
    } else {
        match link_end(data, scheme_len, allow_short) {
            None => None,
            Some(end) => {
                let text = decode_utf8(data.take(end));
                Some((text, text.len()))
            },
        }
    }
}

/// The link that `data` begins with, if it begins with `http://` or
/// `https://`.
pub open spec fn http_match(data: Seq<u8>) -> Option<(Seq<char>, nat)> {
    if has_prefix(data, "http://") {
        link_match(data, 7, true)
    } else if has_prefix(data, "https://") {
        link_match(data, 8, true)
    } else {
        None
    }
}

/// The link that `data` begins with, if it begins with `http://`, `https://`
/// or `ftp://`.
pub open spec fn url_match(data: Seq<u8>) -> Option<(Seq<char>, nat)> {
    if has_prefix(data, "ftp://") {
        link_match(data, 6, true)
    } else {
        http_match(data)
    }
}

/// The first white space from `from` on lies between `from` and the end.
proof fn lemma_first_space(cs: Seq<char>, from: int)
    requires
        0 <= from <= cs.len(),
    ensures
        from <= first_space(cs, from) <= cs.len(),
    decreases cs.len() - from,
{
    if from < cs.len() && !is_space_char(cs[from]) {
        lemma_first_space(cs, from + 1);
    }
}

/// The first white space from a place on is found the same in the text
/// from that place on.
proof fn lemma_first_space_shift(cs: Seq<char>, a: int, from: int)
    requires
        0 <= a,
        0 <= from,
        a + from <= cs.len(),
    ensures
        first_space(cs, a + from) == a + first_space(cs.skip(a), from),
    decreases cs.len() - a - from,
{
    if a + from < cs.len() {
        assert(cs.skip(a)[from] == cs[a + from]);
        if !is_space_char(cs[a + from]) {
            lemma_first_space_shift(cs, a, from + 1);
        }
    }
}

/// The length in bytes of what stands in `s` before its first white space.
pub fn nonspace_run_len(s: &str) -> (n: usize)
    ensures
        n == utf8_len(s@.take(first_space(s@, 0))),
{
    let total = s.as_bytes().len();
    let mut i: usize = 0;
    let ghost mut k: int = 0;
    let mut it = s.chars();
    proof {
        broadcast use vstd::string::group_string_axioms;

        lemma_str_chars(s);
        lemma_prefix_split(s@, 0);
        assert(s@.take(0) =~= Seq::<char>::empty());
    }
    loop
        invariant
            0 <= k <= s@.len(),
            it.obeys_prophetic_iter_laws(),
            it.remaining() == s@.skip(k),
            first_space(s@, 0) == first_space(s@, k),
            i == utf8_len(s@.take(k)),
            i <= total == utf8_len(s@),
        decreases s@.len() - k,
    {
        match it.next() {
            None => {
                return i;
            },
            Some(c) => {
                proof {
                    assert(c == s@[k]);
                    lemma_utf8_len_step(s@, k);
                    lemma_prefix_split(s@, k + 1);
                }
                if is_whitespace(c) {
                    return i;
                }
                i += char_len_utf8(c);
                proof {
                    k = k + 1;
                }
            },
        }
    }
}

/// How the pieces of a link add up: with the scheme in the first `n` bytes,
/// the host name in the `hk` characters behind it and `sk` characters more up
/// to the next white space, the link ends where the first `n + hk + sk`
/// characters of the text end.
proof fn lemma_link_extent(data: Seq<u8>, n: int, rest: Seq<char>, hk: int, tail: Seq<char>)
    requires
        valid_utf8(data),
        0 <= n <= data.len(),
        forall|i: int| 0 <= i < n ==> data[i] < 0x80,
        encode_utf8(rest) == data.skip(n),
        0 <= hk <= rest.len(),
        encode_utf8(tail) == encode_utf8(rest).skip(utf8_len(rest.take(hk)) as int),
    ensures
        ({
            let cs = decode_utf8(data);
            let sk = first_space(tail, 0);
            &&& rest == cs.skip(n)
            &&& 0 <= sk <= tail.len()
            &&& n + hk + sk <= cs.len()
            &&& first_space(cs, n + hk) == n + hk + sk
            &&& utf8_len(cs.take(n + hk + sk)) == n + utf8_len(rest.take(hk)) + utf8_len(
                tail.take(sk),
            )
            &&& utf8_len(cs.take(n + hk + sk)) <= data.len()
            &&& is_char_boundary(data, utf8_len(cs.take(n + hk + sk)) as int)
        }),
{
    let cs = decode_utf8(data);
    let sk = first_space(tail, 0);
    lemma_skip_ascii_prefix(data, n);
    lemma_decode_encode(data);
    lemma_decode_encode(data.skip(n));
    lemma_encode_injective(rest, cs.skip(n));
    lemma_skip_chars(rest, hk);
    lemma_encode_injective(tail, rest.skip(hk));
    assert(tail =~= cs.skip(n + hk));
    lemma_first_space(tail, 0);
    lemma_first_space_shift(cs, n + hk, 0);
    lemma_utf8_len_add(cs, n, hk);
    lemma_utf8_len_add(cs, n + hk, sk);
    lemma_prefix_split(cs, n + hk + sk);
}

/// Where the trimmed link ends, the text can be cut.
proof fn lemma_trimmed_boundary(data: Seq<u8>, end: int)
    requires
        valid_utf8(data),
        is_char_boundary(data, end),
    ensures
        is_char_boundary(data, trimmed_end(data, end)),
        0 <= trimmed_end(data, end) <= data.len(),
        valid_utf8(data.take(trimmed_end(data, end))),
{
    lemma_boundary_split(data, end);
    lemma_trimmed_end_bounds(data, end);
    let e = trimmed_end(data, end);
    if e < end {
        lemma_ascii_byte_boundary(data, e);
    }
    lemma_boundary_split(data, e);
}

/// A link ends within the text, at a character boundary.
pub proof fn lemma_link_end_boundary(data: Seq<u8>, scheme_len: int, allow_short: bool)
    requires
        valid_utf8(data),
        0 <= scheme_len <= data.len(),
        forall|i: int| 0 <= i < scheme_len ==> data[i] < 0x80,
        link_end(data, scheme_len, allow_short) is Some,
    ensures
        ({
            let cs = decode_utf8(data);
            let host = host_chars(cs.skip(scheme_len), allow_short)->0;
            let untrimmed = utf8_len(cs.take(first_space(cs, scheme_len + host))) as int;
            let end = link_end(data, scheme_len, allow_short)->0;
            &&& scheme_len <= untrimmed <= data.len()
            &&& end == trimmed_end(data, untrimmed)
            &&& 0 <= end <= data.len()
            &&& is_char_boundary(data, end)
            &&& valid_utf8(data.take(end))
        }),
{
    let cs = decode_utf8(data);
    let n = scheme_len;
    lemma_skip_ascii_prefix(data, n);
    lemma_decode_encode(data);
    let rest = cs.skip(n);
    let hk = host_chars(rest, allow_short)->0;
    lemma_first_stop(rest, 0);
    lemma_first_space(cs, n + hk);
    let j = first_space(cs, n + hk);
    lemma_utf8_len_add(cs, n, j - n);
    lemma_prefix_split(cs, j);
    lemma_trimmed_boundary(data, utf8_len(cs.take(j)) as int);
}

/// A link does not end inside its scheme. Where the first `scheme_len` bytes
/// are ASCII and a byte among them that is neither a letter nor `&` has no
/// `<` before it, the link ends behind that byte, or where trimming from that
/// byte ends.
pub proof fn lemma_link_end_fence(data: Seq<u8>, scheme_len: int, allow_short: bool, fence: int)
    requires
        valid_utf8(data),
        0 < fence <= scheme_len <= data.len(),
        forall|i: int| 0 <= i < scheme_len ==> data[i] < 0x80,
        forall|i: int| 0 <= i < fence ==> data[i] != LT,
        !is_alpha_byte(data[fence - 1]),
        data[fence - 1] != AMP,
        link_end(data, scheme_len, allow_short) is Some,
    ensures
        ({
            let end = link_end(data, scheme_len, allow_short)->0;
            &&& 0 <= end <= data.len()
            &&& valid_utf8(data.take(end))
            &&& (end >= fence || end == trim_tail(data, fence))
        }),
{
    let cs = decode_utf8(data);
    let host = host_chars(cs.skip(scheme_len), allow_short)->0;
    let untrimmed = utf8_len(cs.take(first_space(cs, scheme_len + host))) as int;
    lemma_link_end_boundary(data, scheme_len, allow_short);
    lemma_trimmed_end_fence(data, untrimmed, fence);
}

/// The text of a link is what the source begins with: where the first
/// `scheme_len` bytes are ASCII, a link of `n` characters is the first `n`
/// characters of the text.
pub proof fn law_link_is_source_text(data: Seq<u8>, scheme_len: int, allow_short: bool)
    requires
        0 <= scheme_len <= data.len(),
        forall|i: int| 0 <= i < scheme_len ==> data[i] < 0x80,
        link_match(data, scheme_len, allow_short) is Some,
    ensures
        ({
            let found = link_match(data, scheme_len, allow_short);
            &&& match_len(found) <= decode_utf8(data).len()
            &&& match_chars(found) == decode_utf8(data).take(match_len(found) as int)
        }),
{
    let end = link_end(data, scheme_len, allow_short)->0;
    lemma_link_end_boundary(data, scheme_len, allow_short);
    lemma_boundary_split(data, end);
    let head = decode_utf8(data.take(end));
    let tail = decode_utf8(data.skip(end));
    assert((head + tail).take(head.len() as int) =~= head);
}

/// A link with a scheme is never shorter than `scheme://`: at least six
/// characters, and at least seven where the scheme is not `ftp`.
pub proof fn law_url_match_covers_scheme(data: Seq<u8>)
    requires
        url_match(data) is Some,
    ensures
        match_len(url_match(data)) >= 6,
        !has_prefix(data, "ftp://") ==> match_len(url_match(data)) >= 7,
        match_chars(url_match(data)).len() == match_len(url_match(data)),
{
    if has_prefix(data, "ftp://") {
        reveal_strlit("ftp://");
        lemma_literal_prefix(data, "ftp://");
        lemma_link_end_fence(data, 6, true, 6);
        let end = link_end(data, 6, true)->0;
        assert(trim_tail(data, 6) == 6);
        lemma_skip_ascii_prefix(data.take(end), 6);
    } else if has_prefix(data, "http://") {
        reveal_strlit("http://");
        lemma_literal_prefix(data, "http://");
        lemma_link_end_fence(data, 7, true, 7);
        let end = link_end(data, 7, true)->0;
        assert(trim_tail(data, 7) == 7);
        lemma_skip_ascii_prefix(data.take(end), 7);
    } else {
        reveal_strlit("https://");
        lemma_literal_prefix(data, "https://");
        lemma_link_end_fence(data, 8, true, 8);
        let end = link_end(data, 8, true)->0;
        assert(trim_tail(data, 8) == 8);
        lemma_skip_ascii_prefix(data.take(end), 8);
    }
}

/// Matches the link whose scheme takes the first `scheme_len` bytes of
/// `text`, and returns it with its length in characters.
pub(crate) fn link_after_scheme<'a>(text: &'a str, scheme_len: usize, allow_short: bool) -> (r:
    Option<(&'a str, usize)>)
    requires
        scheme_len <= text.spec_bytes().len(),
        forall|i: int| 0 <= i < scheme_len ==> text.spec_bytes()[i] < 0x80,
    ensures
        match r {
            Some((link, n)) => link_match(text.spec_bytes(), scheme_len as int, allow_short)
                == Some((link@, n as nat)),
            None => link_match(text.spec_bytes(), scheme_len as int, allow_short) is None,
        },
{
    let contents = text.as_bytes();
    proof {
        lemma_str_chars(text);
        lemma_skip_ascii_prefix(contents@, scheme_len as int);
    }
    let (_, rest) = text.split_at(scheme_len);
    proof {
        lemma_str_chars(rest);
        assert(rest.spec_bytes() == contents@.skip(scheme_len as int));
    }
    let h = match host_name_len(rest, allow_short) {
        None => {
            return None;
        },
        Some(h) => h,
    };
    let ghost hk = host_chars(rest@, allow_short)->0;
    proof {
        lemma_first_stop(rest@, 0);
        lemma_skip_chars(rest@, hk);
    }
    let (_, tail) = rest.split_at(h);
    proof {
        assert(tail.spec_bytes() == rest.spec_bytes().skip(h as int));
        lemma_link_extent(contents@, scheme_len as int, rest@, hk, tail@);
    }
    let x = nonspace_run_len(tail);
    assert(scheme_len + h + x <= contents.len());
    let end = autolink_delim(contents, scheme_len + h + x);
    proof {
        lemma_trimmed_boundary(contents@, scheme_len + h + x);
    }
    let (link, _) = text.split_at(end);
    proof {
        lemma_str_chars(link);
        assert(link.spec_bytes() == contents@.take(end as int));
    }
    let count = link.unicode_len();
    Some((link, count))
}

/// The same for bytes, which hold no link where they are not UTF-8.
pub(crate) fn match_after_scheme<'a>(
    contents: &'a [u8],
    scheme_len: usize,
    allow_short: bool,
) -> (r: Option<(&'a str, usize)>)
    requires
        scheme_len <= contents@.len(),
        forall|i: int| 0 <= i < scheme_len ==> contents@[i] < 0x80,
    ensures
        match r {
            Some((link, n)) => link_match(contents@, scheme_len as int, allow_short) == Some(
                (link@, n as nat),
            ),
            None => link_match(contents@, scheme_len as int, allow_short) is None,
        },
{
    match str_from_utf8(contents) {
        None => None,
        Some(text) => link_after_scheme(text, scheme_len, allow_short),
    }
}

/// The length of the scheme that `contents` begins with, with its `://`, if
/// it begins with `http`, `https` or `ftp`.
fn url_scheme_len(contents: &[u8]) -> (r: Option<usize>)
    ensures
        match r {
            Some(n) => {
                &&& n <= contents@.len()
                &&& forall|i: int| 0 <= i < n ==> contents@[i] < 0x80
                &&& url_match(contents@) == link_match(contents@, n as int, true)
            },
            None => url_match(contents@) is None,
        },
{
    if starts_with(contents, "ftp://") {
        proof {
            reveal_strlit("ftp://");
            lemma_literal_prefix(contents@, "ftp://");
        }
        Some(6)
    } else if starts_with(contents, "http://") {
        proof {
            reveal_strlit("http://");
            lemma_literal_prefix(contents@, "http://");
        }
        Some(7)
    } else if starts_with(contents, "https://") {
        proof {
            reveal_strlit("https://");
            lemma_literal_prefix(contents@, "https://");
        }
        Some(8)
    } else {
        None
    }
}

/// Matches a link that starts with `http://` or `https://` at the start of
/// `contents`, and returns it with its length in characters.
pub fn match_http(contents: &[u8]) -> (r: Option<(String, usize)>)
    ensures
        link_view(r) == http_match(contents@),
{
    let scheme_len: usize = if starts_with(contents, "http://") {
        proof {
            reveal_strlit("http://");
            lemma_literal_prefix(contents@, "http://");
        }
        7
    } else if starts_with(contents, "https://") {
        proof {
            reveal_strlit("https://");
            lemma_literal_prefix(contents@, "https://");
        }
        8
    } else {
        return None;
    };
    match match_after_scheme(contents, scheme_len, true) {
        None => None,
        Some((link, n)) => Some((link.to_owned(), n)),
    }
}

/// Matches a link that starts with `http://`, `https://` or `ftp://` at the
/// start of `contents`, and returns it with its length in characters.
pub fn match_url(contents: &[u8]) -> (r: Option<(String, usize)>)
    ensures
        link_view(r) == url_match(contents@),
{
    match url_scheme_len(contents) {
        None => None,
        Some(scheme_len) => match match_after_scheme(contents, scheme_len, true) {
            None => None,
            Some((link, n)) => Some((link.to_owned(), n)),
        },
    }
}

/// The same for text: the link is returned as a part of `text`.
pub fn match_url_str<'a>(text: &'a str) -> (r: Option<(&'a str, usize)>)
    ensures
        match r {
            Some((link, n)) => url_match(text.spec_bytes()) == Some((link@, n as nat)),
            None => url_match(text.spec_bytes()) is None,
        },
{
    match url_scheme_len(text.as_bytes()) {
        None => None,
        Some(scheme_len) => link_after_scheme(text, scheme_len, true),
    }
}

} // verus!
