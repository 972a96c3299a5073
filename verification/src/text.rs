//! UTF-8 bookkeeping shared by the matchers.
//!
//! Text is modelled as a sequence of characters; a position in a buffer is the
//! number of bytes that encode the characters before it. The lemmas here move
//! between the two views.

use vstd::prelude::*;
use vstd::slice::slice_subrange;
use vstd::string::*;
use vstd::utf8::*;

verus! {

/// Number of bytes that the UTF-8 encoding of `cs` occupies.
pub open spec fn utf8_len(cs: Seq<char>) -> nat {
    encode_utf8(cs).len()
}

/// Number of bytes that the UTF-8 encoding of `c` occupies.
pub open spec fn char_width(c: char) -> nat {
    if c <= '\u{7f}' {
        1
    } else if c <= '\u{7ff}' {
        2
    } else if c <= '\u{ffff}' {
        3
    } else {
        4
    }
}

/// The width of a character is the length of its encoding.
pub proof fn lemma_char_width(c: char)
    ensures
        encode_scalar(c as u32).len() == char_width(c),
        encode_utf8(seq![c]).len() == char_width(c),
        1 <= char_width(c) <= 4,
{
    reveal_with_fuel(encode_utf8, 2);
    assert(seq![c].drop_first() =~= Seq::<char>::empty());
    assert(encode_utf8(seq![c]) =~= encode_scalar(c as u32));
}

/// Encoding distributes over concatenation.
pub proof fn lemma_encode_concat(a: Seq<char>, b: Seq<char>)
    ensures
        encode_utf8(a + b) == encode_utf8(a) + encode_utf8(b),
    decreases a.len(),
{
    if a.len() == 0 {
        assert(a + b =~= b);
        assert(encode_utf8(a) + encode_utf8(b) =~= encode_utf8(b));
    } else {
        lemma_encode_concat(a.drop_first(), b);
        assert((a + b).drop_first() =~= a.drop_first() + b);
        assert((a + b)[0] == a[0]);
        assert(encode_utf8(a + b) =~= encode_utf8(a) + encode_utf8(b));
    }
}

/// Each character takes at least one byte: a text of `n` characters has at
/// least `n` bytes, and only the empty text has none.
pub proof fn lemma_utf8_len_lower(cs: Seq<char>)
    ensures
        cs.len() <= utf8_len(cs),
    decreases cs.len(),
{
    if cs.len() > 0 {
        lemma_char_width(cs[0]);
        lemma_utf8_len_lower(cs.drop_first());
    }
}

/// Taking one more character lengthens the encoding by that character's width.
pub proof fn lemma_utf8_len_step(cs: Seq<char>, k: int)
    requires
        0 <= k < cs.len(),
    ensures
        utf8_len(cs.take(k + 1)) == utf8_len(cs.take(k)) + char_width(cs[k]),
{
    assert(cs.take(k + 1) =~= cs.take(k) + seq![cs[k]]);
    lemma_encode_concat(cs.take(k), seq![cs[k]]);
    lemma_char_width(cs[k]);
}

/// A prefix of `k` characters ends on a character boundary of the encoding,
/// and the encoding splits there into that of the prefix and that of the rest.
pub proof fn lemma_prefix_split(cs: Seq<char>, k: int)
    requires
        0 <= k <= cs.len(),
    ensures
        utf8_len(cs.take(k)) + utf8_len(cs.skip(k)) == utf8_len(cs),
        encode_utf8(cs).subrange(0, utf8_len(cs.take(k)) as int) == encode_utf8(cs.take(k)),
        encode_utf8(cs).subrange(utf8_len(cs.take(k)) as int, utf8_len(cs) as int) == encode_utf8(
            cs.skip(k),
        ),
        is_char_boundary(encode_utf8(cs), utf8_len(cs.take(k)) as int),
{
    broadcast use group_utf8_lib;

    let bytes = encode_utf8(cs);
    let n = utf8_len(cs.take(k)) as int;
    assert(cs =~= cs.take(k) + cs.skip(k));
    lemma_encode_concat(cs.take(k), cs.skip(k));
    assert(bytes.subrange(0, n) =~= encode_utf8(cs.take(k)));
    assert(bytes.subrange(n, bytes.len() as int) =~= encode_utf8(cs.skip(k)));
    if k < cs.len() {
        let rest = cs.skip(k);
        encode_utf8_first_scalar(rest);
        assert(encode_utf8(rest).len() > 0);
        assert(bytes[n] == encode_utf8(rest)[0]);
        is_char_boundary_iff_is_leading_byte(bytes, n);
    } else {
        assert(cs.skip(k) =~= Seq::<char>::empty());
        is_char_boundary_start_end_of_seq(bytes);
    }
}

/// A string's characters are the decoding of its bytes.
pub proof fn lemma_str_chars(s: &str)
    ensures
        valid_utf8(s.spec_bytes()),
        s@ == decode_utf8(s.spec_bytes()),
{
    broadcast use group_utf8_lib;

}

/// Valid bytes are the encoding of their characters.
pub proof fn lemma_decode_encode(bytes: Seq<u8>)
    requires
        valid_utf8(bytes),
    ensures
        encode_utf8(decode_utf8(bytes)) == bytes,
        utf8_len(decode_utf8(bytes)) == bytes.len(),
{
    broadcast use group_utf8_lib;

}

/// ASCII bytes are text in which each byte is one character.
pub proof fn lemma_ascii_chars(bytes: Seq<u8>)
    requires
        forall|i: int| 0 <= i < bytes.len() ==> bytes[i] < 0x80,
    ensures
        valid_utf8(bytes),
        decode_utf8(bytes).len() == bytes.len(),
        forall|i: int| 0 <= i < bytes.len() ==> decode_utf8(bytes)[i] == bytes[i] as char,
{
    broadcast use group_utf8_lib;

    let cs = Seq::new(bytes.len(), |i: int| bytes[i] as char);
    assert(is_ascii_chars(cs));
    is_ascii_chars_encode_utf8(cs);
    assert(encode_utf8(cs) =~= bytes);
    assert(decode_utf8(encode_utf8(cs)) == cs);
}

/// Text splits at a character boundary into two texts, whose characters
/// together are those of the whole.
pub proof fn lemma_boundary_split(data: Seq<u8>, n: int)
    requires
        valid_utf8(data),
        is_char_boundary(data, n),
    ensures
        0 <= n <= data.len(),
        valid_utf8(data.take(n)),
        valid_utf8(data.skip(n)),
        decode_utf8(data) == decode_utf8(data.take(n)) + decode_utf8(data.skip(n)),
        utf8_len(decode_utf8(data.take(n))) == n,
{
    broadcast use group_utf8_lib;

    if n != 0 {
        reveal_with_fuel(is_char_boundary, 1);
    }
    valid_utf8_split(data, n);
    decode_utf8_split(data, n);
    assert(data.take(n) == data.subrange(0, n));
    assert(data.skip(n) == data.subrange(n, data.len() as int));
    assert(encode_utf8(decode_utf8(data.take(n))) == data.take(n));
}

/// Text that begins with a well-formed prefix of `n` bytes has a character
/// boundary at `n`.
pub proof fn lemma_valid_prefix_boundary(data: Seq<u8>, n: int)
    requires
        valid_utf8(data),
        0 <= n <= data.len(),
        valid_utf8(data.take(n)),
    ensures
        is_char_boundary(data, n),
{
    broadcast use group_utf8_lib;

    assert(data.take(n) == data.subrange(0, n));
    if !valid_utf8(data.subrange(n, data.len() as int)) {
        partial_valid_partial_invalid_utf8(data, n);
    }
    let a = decode_utf8(data.take(n));
    let b = decode_utf8(data.subrange(n, data.len() as int));
    lemma_encode_concat(a, b);
    assert(encode_utf8(a) + encode_utf8(b) =~= data);
    assert((a + b).take(a.len() as int) =~= a);
    lemma_prefix_split(a + b, a.len() as int);
}

/// In well-formed text an ASCII byte begins a character.
pub proof fn lemma_ascii_byte_boundary(data: Seq<u8>, n: int)
    requires
        valid_utf8(data),
        0 <= n < data.len(),
        data[n] < 0x80,
    ensures
        is_char_boundary(data, n),
{
    is_char_boundary_iff_not_is_continuation_byte(data, n);
}

/// The encoding of the first `a + b` characters is that of the first `a`
/// followed by that of the next `b`.
pub proof fn lemma_utf8_len_add(cs: Seq<char>, a: int, b: int)
    requires
        0 <= a,
        0 <= b,
        a + b <= cs.len(),
    ensures
        utf8_len(cs.take(a + b)) == utf8_len(cs.take(a)) + utf8_len(cs.skip(a).take(b)),
{
    assert(cs.take(a + b) =~= cs.take(a) + cs.skip(a).take(b));
    lemma_encode_concat(cs.take(a), cs.skip(a).take(b));
}

/// Two texts with the same encoding are the same text.
pub proof fn lemma_encode_injective(a: Seq<char>, b: Seq<char>)
    requires
        encode_utf8(a) == encode_utf8(b),
    ensures
        a == b,
{
    encode_utf8_decode_utf8(a);
    encode_utf8_decode_utf8(b);
}

/// Behind an ASCII prefix of `n` bytes stands the text without its first `n`
/// characters.
pub proof fn lemma_skip_ascii_prefix(data: Seq<u8>, n: int)
    requires
        valid_utf8(data),
        0 <= n <= data.len(),
        forall|i: int| 0 <= i < n ==> data[i] < 0x80,
    ensures
        is_char_boundary(data, n),
        valid_utf8(data.skip(n)),
        n <= decode_utf8(data).len(),
        decode_utf8(data.skip(n)) == decode_utf8(data).skip(n),
        utf8_len(decode_utf8(data).take(n)) == n,
{
    lemma_ascii_chars(data.take(n));
    lemma_valid_prefix_boundary(data, n);
    lemma_boundary_split(data, n);
    let a = decode_utf8(data.take(n));
    let b = decode_utf8(data.skip(n));
    assert((a + b).skip(n) =~= b);
    assert((a + b).take(n) =~= a);
}

/// The text behind the first `k` characters of `cs` is what the encoding
/// holds behind the bytes of those characters.
pub proof fn lemma_skip_chars(cs: Seq<char>, k: int)
    requires
        0 <= k <= cs.len(),
    ensures
        utf8_len(cs.take(k)) <= utf8_len(cs),
        is_char_boundary(encode_utf8(cs), utf8_len(cs.take(k)) as int),
        encode_utf8(cs).skip(utf8_len(cs.take(k)) as int) == encode_utf8(cs.skip(k)),
        encode_utf8(cs).take(utf8_len(cs.take(k)) as int) == encode_utf8(cs.take(k)),
{
    lemma_prefix_split(cs, k);
}

/// The character that ends at byte `pos` of the text `data`, where `pos` is
/// a character boundary other than the start.
pub open spec fn prev_char(data: Seq<u8>, pos: int) -> Option<char> {
    if pos > 0 && is_char_boundary(data, pos) {
        Some(decode_utf8(data.take(pos)).last())
    } else {
        None
    }
}

/// Between two character boundaries with none between them stands one
/// character: the last of the text before the second boundary.
pub proof fn lemma_last_char(data: Seq<u8>, j: int, pos: int)
    requires
        valid_utf8(data),
        0 <= j < pos,
        is_char_boundary(data, j),
        is_char_boundary(data, pos),
        forall|t: int| j < t < pos ==> !is_char_boundary(data, t),
    ensures
        ({
            let cs = decode_utf8(data);
            let k = decode_utf8(data.take(j)).len() as int;
            &&& k < cs.len()
            &&& j == utf8_len(cs.take(k))
            &&& decode_utf8(data.take(pos)).len() == k + 1
            &&& decode_utf8(data.take(pos)).last() == cs[k]
        }),
{
    let cs = decode_utf8(data);
    let before = decode_utf8(data.take(j));
    let upto = decode_utf8(data.take(pos));
    let k = before.len() as int;
    let m = upto.len() as int;
    lemma_boundary_split(data, j);
    lemma_boundary_split(data, pos);
    lemma_decode_encode(data);
    assert(cs.take(k) =~= before);
    assert(cs.take(m) =~= upto);
    if m <= k {
        lemma_utf8_len_add(cs, m, k - m);
    }
    lemma_utf8_len_step(cs, k);
    lemma_char_width(cs[k]);
    lemma_prefix_split(cs, k + 1);
    lemma_utf8_len_add(cs, k + 1, m - k - 1);
    lemma_utf8_len_lower(cs.skip(k + 1).take(m - k - 1));
}

/// What a matcher returns, as plain values: the link's characters and a count.
pub open spec fn link_view(r: Option<(String, usize)>) -> Option<(Seq<char>, nat)> {
    match r {
        Some((url, n)) => Some((url@, n as nat)),
        None => None,
    }
}

/// The length that a match reports; zero where there is none.
pub open spec fn match_len(m: Option<(Seq<char>, nat)>) -> nat {
    match m {
        Some((_, n)) => n,
        None => 0,
    }
}

/// The characters that a match reports; none where there is none.
pub open spec fn match_chars(m: Option<(Seq<char>, nat)>) -> Seq<char> {
    match m {
        Some((text, _)) => text,
        None => Seq::empty(),
    }
}

/// Whether `data` begins with the bytes of `prefix`.
pub open spec fn has_prefix(data: Seq<u8>, prefix: &str) -> bool {
    prefix.spec_bytes().is_prefix_of(data)
}

/// What a buffer that begins with an ASCII literal begins with: one byte for
/// each character of the literal.
pub proof fn lemma_literal_prefix(data: Seq<u8>, prefix: &str)
    requires
        has_prefix(data, prefix),
        is_ascii_chars(prefix@),
    ensures
        prefix@.len() <= data.len(),
        forall|i: int|
            0 <= i < prefix@.len() ==> #[trigger] data[i] == prefix@[i] as u8 && data[i] < 0x80,
{
    is_ascii_chars_encode_utf8(prefix@);
    assert forall|i: int| 0 <= i < prefix@.len() implies #[trigger] data[i] == prefix@[i] as u8
        && data[i] < 0x80 by {
        assert(data.subrange(0, prefix.spec_bytes().len() as int)[i] == data[i]);
    }
}

/// Whether `data` ends with the bytes of `suffix`.
pub open spec fn has_suffix(data: Seq<u8>, suffix: &str) -> bool {
    suffix.spec_bytes().is_suffix_of(data)
}

/// What a buffer that ends with an ASCII literal ends with: one byte for each
/// character of the literal.
pub proof fn lemma_literal_suffix(data: Seq<u8>, suffix: &str)
    requires
        has_suffix(data, suffix),
        is_ascii_chars(suffix@),
    ensures
        suffix@.len() <= data.len(),
        forall|i: int|
            data.len() - suffix@.len() <= i < data.len() ==> #[trigger] data[i] == suffix@[i - (
            data.len() - suffix@.len())] as u8 && data[i] < 0x80,
{
    is_ascii_chars_encode_utf8(suffix@);
    let n = suffix@.len() as int;
    let off = data.len() - n;
    assert forall|i: int| off <= i < data.len() implies #[trigger] data[i] == suffix@[i - off] as u8
        && data[i] < 0x80 by {
        assert(data.subrange(off, data.len() as int)[i - off] == data[i]);
    }
}

/// Whether `data` begins with the bytes of `prefix`.
pub fn starts_with(data: &[u8], prefix: &str) -> (r: bool)
    ensures
        r == has_prefix(data@, prefix),
{
    let p = prefix.as_bytes();
    if p.len() > data.len() {
        return false;
    }
    let mut i: usize = 0;
    while i < p.len()
        invariant
            i <= p@.len() <= data@.len(),
            p@ == prefix.spec_bytes(),
            forall|j: int| 0 <= j < i ==> data@[j] == p@[j],
        decreases p@.len() - i,
    {
        if data[i] != p[i] {
            return false;
        }
        i += 1;
    }
    assert(data@.subrange(0, p@.len() as int) =~= p@);
    true
}

/// Whether the first `end` bytes of `data` end with the bytes of `suffix`;
/// `false` where `data` has fewer than `end` bytes.
pub fn ends_with(data: &[u8], end: usize, suffix: &str) -> (r: bool)
    ensures
        r == (end <= data@.len() && has_suffix(data@.take(end as int), suffix)),
{
    let s = suffix.as_bytes();
    if end > data.len() || s.len() > end {
        return false;
    }
    let off = end - s.len();
    let ghost head = data@.take(end as int);
    let mut i: usize = 0;
    while i < s.len()
        invariant
            i <= s@.len() <= end <= data@.len(),
            off == end - s@.len(),
            s@ == suffix.spec_bytes(),
            head == data@.take(end as int),
            forall|j: int| 0 <= j < i ==> data@[off + j] == s@[j],
        decreases s@.len() - i,
    {
        if data[off + i] != s[i] {
            assert(head.subrange(head.len() - s@.len(), head.len() as int)[i as int] != s@[i as int]);
            return false;
        }
        i += 1;
    }
    assert(head.subrange(head.len() - s@.len(), head.len() as int) =~= s@);
    true
}

/// The text of `data[..end]` with its length in characters, or `None`
/// where `data` has fewer than `end` bytes or those bytes are not well-formed
/// UTF-8.
pub fn link_text(data: &[u8], end: usize) -> (r: Option<(String, usize)>)
    ensures
        match r {
            Some((text, n)) => end <= data@.len() && valid_utf8(data@.take(end as int)) && text@
                == decode_utf8(data@.take(end as int)) && n == text@.len(),
            None => end > data@.len() || !valid_utf8(data@.take(end as int)),
        },
{
    if end > data.len() {
        return None;
    }
    let head = slice_subrange(data, 0, end);
    match str_from_utf8(head) {
        None => None,
        Some(s) => {
            proof {
                lemma_str_chars(s);
            }
            let n = s.unicode_len();
            Some((s.to_owned(), n))
        },
    }
}

/// Number of bytes in the UTF-8 encoding of `c`.
pub fn char_len_utf8(c: char) -> (n: usize)
    ensures
        n == char_width(c),
{
    if c <= '\u{7f}' {
        1
    } else if c <= '\u{7ff}' {
        2
    } else if c <= '\u{ffff}' {
        3
    } else {
        4
    }
}

/// The character of `s` that begins at byte `i`, where `i` is the byte offset
/// of the character with index `k`; `None` at the end of `s`.
pub(crate) fn char_at(s: &str, i: usize, Ghost(k): Ghost<int>) -> (r: Option<char>)
    requires
        0 <= k <= s@.len(),
        i == utf8_len(s@.take(k)),
    ensures
        r == if k < s@.len() {
            Some(s@[k])
        } else {
            None
        },
        i + utf8_len(s@.skip(k)) == utf8_len(s@) == s.spec_bytes().len() <= usize::MAX,
        k < s@.len() ==> utf8_len(s@.take(k + 1)) == i + char_width(s@[k]) <= utf8_len(s@),
{
    let _ = s.as_bytes().len();
    proof {
        broadcast use vstd::string::group_string_axioms;

        lemma_prefix_split(s@, k);
        if k < s@.len() {
            lemma_utf8_len_step(s@, k);
            lemma_prefix_split(s@, k + 1);
        }
    }
    let (_, rest) = s.split_at(i);
    proof {
        lemma_encode_injective(rest@, s@.skip(k));
    }
    let mut it = rest.chars();
    it.next()
}

/// The character that ends at byte `pos` of `text`; `None` at the start of
/// the text and where `pos` is no character boundary.
pub fn char_before(text: &str, pos: usize) -> (r: Option<char>)
    ensures
        r == prev_char(text.spec_bytes(), pos as int),
{
    if pos == 0 || !text.is_char_boundary(pos) {
        return None;
    }
    let mut j: usize = pos - 1;
    while j > 0 && !text.is_char_boundary(j)
        invariant
            j < pos,
            forall|t: int| j < t < pos ==> !is_char_boundary(text.spec_bytes(), t),
        decreases j,
    {
        j -= 1;
    }
    proof {
        lemma_str_chars(text);
        lemma_last_char(text.spec_bytes(), j as int, pos as int);
    }
    char_at(text, j, Ghost(decode_utf8(text.spec_bytes().take(j as int)).len() as int))
}

/// The part of `s` between the bytes `from` and `to`, which are the byte
/// offsets of the characters with the indices `a` and `b`.
pub(crate) fn substring<'a>(
    s: &'a str,
    from: usize,
    to: usize,
    Ghost(a): Ghost<int>,
    Ghost(b): Ghost<int>,
) -> (r: &'a str)
    requires
        0 <= a <= b <= s@.len(),
        from == utf8_len(s@.take(a)),
        to == utf8_len(s@.take(b)),
    ensures
        r@ == s@.subrange(a, b),
{
    proof {
        lemma_prefix_split(s@, b);
        lemma_utf8_len_add(s@, a, b - a);
    }
    let (head, _) = s.split_at(to);
    proof {
        lemma_encode_injective(head@, s@.take(b));
        lemma_prefix_split(head@, a);
        assert(head@.take(a) =~= s@.take(a));
    }
    let (_, r) = head.split_at(from);
    proof {
        lemma_encode_injective(r@, head@.skip(a));
        assert(head@.skip(a) =~= s@.subrange(a, b));
    }
    r
}

/// Reads a byte slice as text.
///
/// Wraps `core::str::from_utf8`: the result is `Some` exactly when the bytes
/// are well-formed UTF-8, and the string then has those very bytes.
#[verifier::external_body]
pub(crate) fn str_from_utf8(bytes: &[u8]) -> (r: Option<&str>)
    ensures
        r is Some <==> valid_utf8(bytes@),
        r is Some ==> r->0.spec_bytes() == bytes@,
{
    match core::str::from_utf8(bytes) {
        Ok(s) => Some(s),
        Err(_) => None,
    }
}

} // verus!
