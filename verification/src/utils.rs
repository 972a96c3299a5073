//! The two passes that every link shares: trimming what trails a candidate,
//! and measuring the host name that leads it.

use crate::ctype::{
    is_alpha_byte, is_host_char, is_valid_hostchar, isalpha, AMP, BANG, COLON, COMMA, DOT, DQUOTE,
    LBRACKET, LPAREN, LT, QUESTION, QUOTE, RBRACKET, RPAREN, SEMICOLON, STAR, TILDE, UNDERSCORE,
};
use crate::text::{
    char_len_utf8, lemma_prefix_split, lemma_str_chars, lemma_utf8_len_lower, lemma_utf8_len_step,
    str_from_utf8, utf8_len,
};
use vstd::prelude::*;
use vstd::std_specs::iter::IteratorSpec;
use vstd::string::*;
use vstd::utf8::*;

verus! {

/// Sentence punctuation that never ends a link.
pub open spec fn is_trailing_punct(b: u8) -> bool {
    ||| b == QUESTION
    ||| b == BANG
    ||| b == DOT
    ||| b == COMMA
    ||| b == COLON
    ||| b == STAR
    ||| b == UNDERSCORE
    ||| b == TILDE
    ||| b == QUOTE
    ||| b == DQUOTE
    ||| b == LBRACKET
    ||| b == RBRACKET
}

/// Index of the first `<` in `data[from..end]`, or `end` where there is none.
pub open spec fn first_lt(data: Seq<u8>, from: int, end: int) -> int
    decreases end - from,
{
    if from >= end {
        end
    } else if data[from] == LT {
        from
    } else {
        first_lt(data, from + 1, end)
    }
}

/// How often `b` occurs in `s`.
pub open spec fn count_byte(s: Seq<u8>, b: u8) -> nat
    decreases s.len(),
{
    if s.len() == 0 {
        0
    } else {
        count_byte(s.drop_last(), b) + if s.last() == b {
            1nat
        } else {
            0nat
        }
    }
}

/// Walking left from `j` over ASCII letters: the index where the walk stops,
/// which is the first byte met that is no letter, or 0.
pub open spec fn skip_alpha_back(data: Seq<u8>, j: int) -> int
    decreases j,
{
    if 0 < j < data.len() && is_alpha_byte(data[j]) {
        skip_alpha_back(data, j - 1)
    } else {
        j
    }
}

/// Where a character reference that ends in the `;` at `end - 1` begins:
/// the `&` that stands before a non-empty run of letters, if there is one.
pub open spec fn entity_start(data: Seq<u8>, end: int) -> Option<int> {
    let j = skip_alpha_back(data, end - 2);
    if 2 <= end <= data.len() && 0 <= j < end - 2 && data[j] == AMP {
        Some(j)
    } else {
        None
    }
}

/// Whether the `)` that ends `data[..end]` has a partner: the span holds no
/// more closing than opening parentheses.
pub open spec fn paren_is_balanced(data: Seq<u8>, end: int) -> bool {
    count_byte(data.take(end), RPAREN) <= count_byte(data.take(end), LPAREN)
}

/// The end of `data[..end]` once trailing delimiters are dropped: sentence
/// punctuation goes, a `;` goes together with the character reference it
/// closes, a `)` goes unless the span balances it, and anything else stays.
pub open spec fn trim_tail(data: Seq<u8>, end: int) -> int
    decreases end,
{
    if end <= 0 || end > data.len() {
        0
    } else {
        let last = data[end - 1];
        if is_trailing_punct(last) {
            trim_tail(data, end - 1)
        } else if last == SEMICOLON {
            match entity_start(data, end) {
                Some(j) => if 0 <= j < end {
                    trim_tail(data, j)
                } else {
                    0
                },
                None => trim_tail(data, end - 1),
            }
        } else if last == RPAREN {
            if paren_is_balanced(data, end) {
                end
            } else {
                trim_tail(data, end - 1)
            }
        } else {
            end
        }
    }
}

/// The candidate end clamped to the buffer.
pub open spec fn clamp_end(data: Seq<u8>, end: int) -> int {
    if end <= 0 {
        0
    } else if end > data.len() {
        data.len() as int
    } else {
        end
    }
}

/// The adjusted end of a candidate link `data[..end]`: first cut at the first
/// `<`, then with trailing delimiters dropped.
pub open spec fn trimmed_end(data: Seq<u8>, end: int) -> int {
    trim_tail(data, first_lt(data, 0, clamp_end(data, end)))
}

/// The first `<` lies within the span, and no `<` stands before it.
proof fn lemma_first_lt_bounds(data: Seq<u8>, from: int, end: int)
    requires
        0 <= from <= end <= data.len(),
    ensures
        from <= first_lt(data, from, end) <= end,
        forall|j: int| from <= j < first_lt(data, from, end) ==> data[j] != LT,
        first_lt(data, from, end) < end ==> data[first_lt(data, from, end)] == LT,
    decreases end - from,
{
    if from < end && data[from] != LT {
        lemma_first_lt_bounds(data, from + 1, end);
    }
}

/// Where no `<` stands, nothing is cut.
pub proof fn lemma_first_lt_none(data: Seq<u8>, from: int, end: int)
    requires
        0 <= from <= end <= data.len(),
        forall|j: int| from <= j < end ==> data[j] != LT,
    ensures
        first_lt(data, from, end) == end,
    decreases end - from,
{
    if from < end {
        lemma_first_lt_none(data, from + 1, end);
    }
}

/// Trimming never lengthens a span, and what it cuts away starts with an
/// ASCII byte.
pub proof fn lemma_trim_tail_bounds(data: Seq<u8>, end: int)
    requires
        0 <= end <= data.len(),
    ensures
        0 <= trim_tail(data, end) <= end,
        trim_tail(data, end) < end ==> data[trim_tail(data, end)] < 0x80,
    decreases end,
{
    if end > 0 {
        let last = data[end - 1];
        if is_trailing_punct(last) {
            lemma_trim_tail_bounds(data, end - 1);
        } else if last == SEMICOLON {
            match entity_start(data, end) {
                Some(j) => {
                    lemma_trim_tail_bounds(data, j);
                },
                None => {
                    lemma_trim_tail_bounds(data, end - 1);
                },
            }
        } else if last == RPAREN {
            if !paren_is_balanced(data, end) {
                lemma_trim_tail_bounds(data, end - 1);
            }
        }
    }
}

/// The adjusted end lies within the candidate, and where it differs from the
/// (clamped) candidate end it stands before an ASCII byte.
pub proof fn lemma_trimmed_end_bounds(data: Seq<u8>, end: int)
    ensures
        0 <= trimmed_end(data, end) <= clamp_end(data, end),
        trimmed_end(data, end) < clamp_end(data, end) ==> data[trimmed_end(data, end)] < 0x80,
{
    let e = clamp_end(data, end);
    lemma_first_lt_bounds(data, 0, e);
    lemma_trim_tail_bounds(data, first_lt(data, 0, e));
}

/// Walking left over letters passes nothing but letters.
proof fn lemma_skip_alpha_back_run(data: Seq<u8>, j: int)
    requires
        0 <= j < data.len(),
    ensures
        forall|i: int| skip_alpha_back(data, j) < i <= j ==> is_alpha_byte(data[i]),
    decreases j,
{
    if 0 < j && is_alpha_byte(data[j]) {
        lemma_skip_alpha_back_run(data, j - 1);
    }
}

/// A byte that is neither a letter nor `&` fences what stands before it:
/// trimming a longer span either stops behind that byte, or arrives exactly
/// there and goes on as trimming from there does.
pub proof fn lemma_trim_fence(data: Seq<u8>, end: int, fence: int)
    requires
        0 < fence <= end <= data.len(),
        !is_alpha_byte(data[fence - 1]),
        data[fence - 1] != AMP,
    ensures
        trim_tail(data, end) >= fence || trim_tail(data, end) == trim_tail(data, fence),
    decreases end,
{
    if end > fence {
        let last = data[end - 1];
        if is_trailing_punct(last) {
            lemma_trim_fence(data, end - 1, fence);
        } else if last == SEMICOLON {
            match entity_start(data, end) {
                Some(j) => {
                    lemma_skip_alpha_back_run(data, end - 2);
                    assert(j >= fence);
                    lemma_trim_fence(data, j, fence);
                },
                None => {
                    lemma_trim_fence(data, end - 1, fence);
                },
            }
        } else if last == RPAREN {
            if !paren_is_balanced(data, end) {
                lemma_trim_fence(data, end - 1, fence);
            }
        }
    }
}

/// The same for the adjusted end of a candidate, where no `<` stands before
/// the fence.
pub proof fn lemma_trimmed_end_fence(data: Seq<u8>, end: int, fence: int)
    requires
        0 < fence <= end <= data.len(),
        !is_alpha_byte(data[fence - 1]),
        data[fence - 1] != AMP,
        forall|i: int| 0 <= i < fence ==> data[i] != LT,
    ensures
        trimmed_end(data, end) >= fence || trimmed_end(data, end) == trim_tail(data, fence),
{
    lemma_first_lt_bounds(data, 0, end);
    let c = first_lt(data, 0, end);
    assert(c >= fence) by {
        if c < fence {
            assert(data[c] == LT);
        }
    }
    lemma_trim_fence(data, c, fence);
}

/// What trimming leaves is not trimmed further.
pub proof fn lemma_trim_tail_fixpoint(data: Seq<u8>, end: int)
    requires
        0 <= end <= data.len(),
    ensures
        trim_tail(data, trim_tail(data, end)) == trim_tail(data, end),
    decreases end,
{
    if end > 0 {
        let last = data[end - 1];
        if is_trailing_punct(last) {
            lemma_trim_tail_fixpoint(data, end - 1);
        } else if last == SEMICOLON {
            match entity_start(data, end) {
                Some(j) => {
                    lemma_trim_tail_fixpoint(data, j);
                },
                None => {
                    lemma_trim_tail_fixpoint(data, end - 1);
                },
            }
        } else if last == RPAREN {
            if !paren_is_balanced(data, end) {
                lemma_trim_tail_fixpoint(data, end - 1);
            }
        }
    }
}

/// Trimming is idempotent: the adjusted end of an already adjusted span is
/// that same end.
pub proof fn law_trim_idempotent(data: Seq<u8>, end: int)
    ensures
        trimmed_end(data, trimmed_end(data, end)) == trimmed_end(data, end),
{
    let e = clamp_end(data, end);
    let c = first_lt(data, 0, e);
    lemma_first_lt_bounds(data, 0, e);
    lemma_trim_tail_bounds(data, c);
    let r = trim_tail(data, c);
    assert(clamp_end(data, r) == r);
    lemma_first_lt_none(data, 0, r);
    lemma_trim_tail_fixpoint(data, c);
}

/// Counting distributes over concatenation.
pub proof fn lemma_count_byte_concat(a: Seq<u8>, b: Seq<u8>, c: u8)
    ensures
        count_byte(a + b, c) == count_byte(a, c) + count_byte(b, c),
    decreases b.len(),
{
    if b.len() == 0 {
        assert(a + b =~= a);
    } else {
        assert((a + b).drop_last() =~= a + b.drop_last());
        lemma_count_byte_concat(a, b.drop_last(), c);
    }
}

/// A byte that does not occur is counted zero times.
pub proof fn lemma_count_byte_absent(s: Seq<u8>, c: u8)
    requires
        forall|i: int| 0 <= i < s.len() ==> s[i] != c,
    ensures
        count_byte(s, c) == 0,
    decreases s.len(),
{
    if s.len() > 0 {
        lemma_count_byte_absent(s.drop_last(), c);
    }
}

/// One byte counts once if it is the byte counted, else not at all.
proof fn lemma_count_byte_single(b: u8, c: u8)
    ensures
        count_byte(seq![b], c) == if b == c {
            1nat
        } else {
            0nat
        },
{
    reveal_with_fuel(count_byte, 2);
    assert(seq![b].drop_last() =~= Seq::<u8>::empty());
}

/// A link that ends in a parenthesised part keeps its closing parenthesis:
/// where `path` and `inner` each hold as many `(` as `)` and neither holds a
/// `<`, nothing is trimmed from `path ( inner )`.
pub proof fn law_balanced_paren_kept(path: Seq<u8>, inner: Seq<u8>)
    requires
        count_byte(path, LPAREN) == count_byte(path, RPAREN),
        count_byte(inner, LPAREN) == count_byte(inner, RPAREN),
        forall|i: int| 0 <= i < path.len() ==> path[i] != LT,
        forall|i: int| 0 <= i < inner.len() ==> inner[i] != LT,
    ensures
        ({
            let data = path + seq![LPAREN] + inner + seq![RPAREN];
            trimmed_end(data, data.len() as int) == data.len()
        }),
{
    let data = path + seq![LPAREN] + inner + seq![RPAREN];
    let n = data.len() as int;
    lemma_first_lt_none(data, 0, n);
    assert(data.take(n) =~= data);
    lemma_count_byte_concat(path + seq![LPAREN] + inner, seq![RPAREN], LPAREN);
    lemma_count_byte_concat(path + seq![LPAREN] + inner, seq![RPAREN], RPAREN);
    lemma_count_byte_concat(path + seq![LPAREN], inner, LPAREN);
    lemma_count_byte_concat(path + seq![LPAREN], inner, RPAREN);
    lemma_count_byte_concat(path, seq![LPAREN], LPAREN);
    lemma_count_byte_concat(path, seq![LPAREN], RPAREN);
    lemma_count_byte_single(LPAREN, LPAREN);
    lemma_count_byte_single(LPAREN, RPAREN);
    lemma_count_byte_single(RPAREN, LPAREN);
    lemma_count_byte_single(RPAREN, RPAREN);
    assert(data[n - 1] == RPAREN);
}

/// One closing parenthesis too many is the only thing trimmed: with `path`
/// and `inner` as above, `path ( inner ) )` is cut back to `path ( inner )`.
pub proof fn law_unbalanced_paren_stripped(path: Seq<u8>, inner: Seq<u8>)
    requires
        count_byte(path, LPAREN) == count_byte(path, RPAREN),
        count_byte(inner, LPAREN) == count_byte(inner, RPAREN),
        forall|i: int| 0 <= i < path.len() ==> path[i] != LT,
        forall|i: int| 0 <= i < inner.len() ==> inner[i] != LT,
    ensures
        ({
            let data = path + seq![LPAREN] + inner + seq![RPAREN] + seq![RPAREN];
            trimmed_end(data, data.len() as int) == data.len() - 1
        }),
{
    let kept = path + seq![LPAREN] + inner + seq![RPAREN];
    let data = kept + seq![RPAREN];
    let n = data.len() as int;
    lemma_first_lt_none(data, 0, n);
    assert(data.take(n) =~= data);
    assert(data.take(n - 1) =~= kept);
    lemma_count_byte_concat(kept, seq![RPAREN], LPAREN);
    lemma_count_byte_concat(kept, seq![RPAREN], RPAREN);
    lemma_count_byte_concat(path + seq![LPAREN] + inner, seq![RPAREN], LPAREN);
    lemma_count_byte_concat(path + seq![LPAREN] + inner, seq![RPAREN], RPAREN);
    lemma_count_byte_concat(path + seq![LPAREN], inner, LPAREN);
    lemma_count_byte_concat(path + seq![LPAREN], inner, RPAREN);
    lemma_count_byte_concat(path, seq![LPAREN], LPAREN);
    lemma_count_byte_concat(path, seq![LPAREN], RPAREN);
    lemma_count_byte_single(LPAREN, LPAREN);
    lemma_count_byte_single(LPAREN, RPAREN);
    lemma_count_byte_single(RPAREN, LPAREN);
    lemma_count_byte_single(RPAREN, RPAREN);
    assert(data[n - 1] == RPAREN);
    assert(data[n - 2] == RPAREN);
    assert(!paren_is_balanced(data, n));
    assert(paren_is_balanced(data, n - 1));
    assert(trim_tail(data, n - 1) == n - 1);
}

/// Adjusts the end of a candidate link.
///
/// The candidate is `data[..link_end]` (an end past the buffer counts as the
/// buffer's end). The result is the end after cutting at the first `<` and
/// dropping trailing delimiters.
pub fn autolink_delim(data: &[u8], link_end: usize) -> (r: usize)
    ensures
        r == trimmed_end(data@, link_end as int),
        r <= link_end,
        r <= data@.len(),
{
    let mut link_end: usize = if link_end > data.len() {
        data.len()
    } else {
        link_end
    };
    let ghost clamped = link_end as int;

    let mut i: usize = 0;
    while i < link_end
        invariant_except_break
            i <= link_end == clamped <= data@.len(),
            first_lt(data@, 0, clamped) == first_lt(data@, i as int, clamped),
        ensures
            link_end == first_lt(data@, 0, clamped),
            link_end <= clamped <= data@.len(),
        decreases link_end - i,
    {
        if data[i] == LT {
            link_end = i;
            break ;
        }
        i += 1;
    }

    let ghost clipped = link_end as int;
    while link_end > 0
        invariant_except_break
            link_end <= clipped <= data@.len(),
            trim_tail(data@, clipped) == trim_tail(data@, link_end as int),
        ensures
            link_end <= clipped <= data@.len(),
            link_end == trim_tail(data@, clipped),
        decreases link_end,
    {
        let cclose = data[link_end - 1];
        if is_trailing(cclose) {
            link_end -= 1;
        } else if cclose == SEMICOLON {
            if link_end < 2 {
                link_end -= 1;
            } else {
                let mut new_end: usize = link_end - 2;
                while new_end > 0 && isalpha(data[new_end])
                    invariant
                        new_end <= link_end - 2,
                        2 <= link_end <= data@.len(),
                        skip_alpha_back(data@, link_end - 2) == skip_alpha_back(
                            data@,
                            new_end as int,
                        ),
                    decreases new_end,
                {
                    new_end -= 1;
                }
                if new_end < link_end - 2 && data[new_end] == AMP {
                    link_end = new_end;
                } else {
                    link_end -= 1;
                }
            }
        } else if cclose == RPAREN {
            let mut opening: usize = 0;
            let mut closing: usize = 0;
            let mut k: usize = 0;
            while k < link_end
                invariant
                    k <= link_end <= data@.len(),
                    opening == count_byte(data@.take(k as int), LPAREN),
                    closing == count_byte(data@.take(k as int), RPAREN),
                    opening <= k,
                    closing <= k,
                decreases link_end - k,
            {
                proof {
                    assert(data@.take(k + 1).drop_last() =~= data@.take(k as int));
                }
                if data[k] == LPAREN {
                    opening += 1;
                } else if data[k] == RPAREN {
                    closing += 1;
                }
                k += 1;
            }
            if closing <= opening {
                break ;
            }
            link_end -= 1;
        } else {
            break ;
        }
    }
    link_end
}

/// What the scan of a host name has seen: how many periods, and how many
/// underscores in the label being read and in the label before it.
pub struct DomainScanState {
    pub period_count: nat,
    pub trailing_underscore_run: nat,
    pub prior_underscore_run: nat,
}

/// Characters that end a host name: anything that is no host character and
/// none of `_`, `.` and `-`.
pub open spec fn is_host_stop(c: char) -> bool {
    c != '_' && c != '.' && c != '-' && !is_host_char(c)
}

/// Index of the first character at or after `from` that ends a host name, or
/// the length of `cs` where none does.
pub open spec fn first_stop(cs: Seq<char>, from: int) -> int
    decreases cs.len() - from,
{
    if from < 0 || from >= cs.len() {
        cs.len() as int
    } else if is_host_stop(cs[from]) {
        from
    } else {
        first_stop(cs, from + 1)
    }
}

/// The state after one more character of a host name.
pub open spec fn scan_step(st: DomainScanState, c: char) -> DomainScanState {
    if c == '_' {
        DomainScanState { trailing_underscore_run: st.trailing_underscore_run + 1, ..st }
    } else if c == '.' {
        DomainScanState {
            period_count: st.period_count + 1,
            trailing_underscore_run: 0,
            prior_underscore_run: st.trailing_underscore_run,
        }
    } else {
        st
    }
}

/// The state after all of `cs`.
pub open spec fn scan_state(cs: Seq<char>) -> DomainScanState
    decreases cs.len(),
{
    if cs.len() == 0 {
        DomainScanState { period_count: 0, trailing_underscore_run: 0, prior_underscore_run: 0 }
    } else {
        scan_step(scan_state(cs.drop_last()), cs.last())
    }
}

/// Whether a host name that was read up to a character that ends it is
/// accepted: no underscore in its last two labels, and a period unless short
/// names are allowed.
pub open spec fn accepts_stopped(st: DomainScanState, allow_short: bool) -> bool {
    st.prior_underscore_run == 0 && st.trailing_underscore_run == 0 && (allow_short
        || st.period_count > 0)
}

/// Whether a host name that runs to the end of the input is accepted: as
/// above, but underscores are let through once more than ten periods were
/// seen.
pub open spec fn accepts_at_end(st: DomainScanState, allow_short: bool) -> bool {
    !((st.prior_underscore_run > 0 || st.trailing_underscore_run > 0) && st.period_count <= 10)
        && (allow_short || st.period_count > 0)
}

/// The number of characters in the host name that leads `cs`, or `None` where
/// `cs` is empty or the name is not accepted.
pub open spec fn host_chars(cs: Seq<char>, allow_short: bool) -> Option<int> {
    let n = first_stop(cs, 0);
    let st = scan_state(cs.take(n));
    if cs.len() == 0 {
        None
    } else if n < cs.len() {
        if accepts_stopped(st, allow_short) {
            Some(n)
        } else {
            None
        }
    } else {
        if accepts_at_end(st, allow_short) {
            Some(n)
        } else {
            None
        }
    }
}

/// The number of bytes in the host name that leads the text `cs`.
pub open spec fn host_len(cs: Seq<char>, allow_short: bool) -> Option<int> {
    match host_chars(cs, allow_short) {
        Some(n) => Some(utf8_len(cs.take(n)) as int),
        None => None,
    }
}

/// The number of bytes in the host name that leads `data`, or `None` where
/// `data` is not UTF-8 or holds no accepted host name.
pub open spec fn domain_len(data: Seq<u8>, allow_short: bool) -> Option<int> {
    if valid_utf8(data) {
        host_len(decode_utf8(data), allow_short)
    } else {
        None
    }
}

/// The first stop lies within the text, nothing before it ends a host name,
/// and the character there, if any, does.
pub proof fn lemma_first_stop(cs: Seq<char>, from: int)
    requires
        0 <= from <= cs.len(),
    ensures
        from <= first_stop(cs, from) <= cs.len(),
        forall|j: int| from <= j < first_stop(cs, from) ==> !is_host_stop(cs[j]),
        first_stop(cs, from) < cs.len() ==> is_host_stop(cs[first_stop(cs, from)]),
    decreases cs.len() - from,
{
    if from < cs.len() && !is_host_stop(cs[from]) {
        lemma_first_stop(cs, from + 1);
    }
}

/// Measures the host name at the start of `s`, in bytes.
pub fn host_name_len(s: &str, allow_short: bool) -> (r: Option<usize>)
    ensures
        match r {
            Some(n) => host_len(s@, allow_short) == Some(n as int),
            None => host_len(s@, allow_short) is None,
        },
{
    let total = s.as_bytes().len();
    proof {
        lemma_utf8_len_lower(s@);
    }
    if total == 0 {
        return None;
    }
    let mut np: usize = 0;
    let mut uscore1: usize = 0;
    let mut uscore2: usize = 0;
    let mut i: usize = 0;
    let ghost mut k: int = 0;
    let mut it = s.chars();
    proof {
        broadcast use vstd::string::group_string_axioms;

        lemma_str_chars(s);
        lemma_prefix_split(s@, 0);
        assert(s@.take(0) =~= Seq::<char>::empty());
    }
    loop
        invariant
            0 <= k <= s@.len(),
            it.obeys_prophetic_iter_laws(),
            it.remaining() == s@.skip(k),
            first_stop(s@, 0) == first_stop(s@, k),
            scan_state(s@.take(k)) == (DomainScanState {
                period_count: np as nat,
                trailing_underscore_run: uscore2 as nat,
                prior_underscore_run: uscore1 as nat,
            }),
            i == utf8_len(s@.take(k)),
            np <= k <= i <= total == utf8_len(s@),
            s@.len() > 0,
            uscore1 <= k,
            uscore2 <= k,
        decreases s@.len() - k,
    {
        match it.next() {
            None => {
                assert(k == s@.len());
                assert(s@.take(k) =~= s@);
                if (uscore1 > 0 || uscore2 > 0) && np <= 10 {
                    return None;
                } else if allow_short || np > 0 {
                    return Some(i);
                } else {
                    return None;
                }
            },
            Some(c) => {
                proof {
                    assert(c == s@[k]);
                    assert(s@.take(k + 1).drop_last() =~= s@.take(k));
                    lemma_utf8_len_step(s@, k);
                    lemma_prefix_split(s@, k + 1);
                }
                if c == '_' {
                    uscore2 += 1;
                } else if c == '.' {
                    uscore1 = uscore2;
                    uscore2 = 0;
                    np += 1;
                } else if !is_valid_hostchar(c) && c != '-' {
                    if uscore1 == 0 && uscore2 == 0 && (allow_short || np > 0) {
                        return Some(i);
                    }
                    return None;
                }
                i += char_len_utf8(c);
                proof {
                    k = k + 1;
                }
            },
        }
    }
}

/// Measures the host name at the start of `data`.
///
/// The result is the length in bytes of the leading run of host characters,
/// periods, hyphens and underscores, where that run is accepted as a host
/// name; `None` where it is not, where `data` is empty and where `data` is not
/// UTF-8. With `allow_short` a name without a period is accepted.
pub fn check_domain(data: &[u8], allow_short: bool) -> (r: Option<usize>)
    ensures
        match r {
            Some(n) => domain_len(data@, allow_short) == Some(n as int),
            None => domain_len(data@, allow_short) is None,
        },
{
    match str_from_utf8(data) {
        None => None,
        Some(s) => {
            proof {
                lemma_str_chars(s);
            }
            host_name_len(s, allow_short)
        },
    }
}

/// Whether `b` is sentence punctuation that never ends a link.
#[verifier::when_used_as_spec(is_trailing_punct)]
pub fn is_trailing(b: u8) -> (r: bool)
    ensures
        r == is_trailing_punct(b),
{
    b == QUESTION || b == BANG || b == DOT || b == COMMA || b == COLON || b == STAR || b == UNDERSCORE || b
        == TILDE || b == QUOTE || b == DQUOTE || b == LBRACKET || b == RBRACKET
}

} // verus!
