//! Slugs for headings, as GitHub makes them: lower case, without
//! punctuation, hyphens for spaces, and a number behind a slug that was
//! given out before.

use crate::ctype::{is_space_char, is_whitespace};
use crate::text::{char_at, char_len_utf8, substring, utf8_len};
use regex::Regex;
use vstd::prelude::*;
use vstd::seq_lib::*;
use vstd::set_lib::*;
use vstd::string::*;

verus! {

/// The characters that a slug does not keep as they are: numbers that are
/// no digits, punctuation, symbols, control and format characters, private
/// and unassigned code points, and separators.
pub const REMOVE_PAT: &'static str =
    r"[\p{Other_Number}\p{Close_Punctuation}\p{Final_Punctuation}\p{Initial_Punctuation}\p{Open_Punctuation}\p{Other_Punctuation}\p{Dash_Punctuation}\p{Symbol}\p{Control}\p{Private_Use}\p{Format}\p{Unassigned}\p{Separator}]";

/// The text `cs` in lower case, as Unicode defines it.
pub uninterp spec fn lowercase_of(cs: Seq<char>) -> Seq<char>;

/// Whether `c` has the Unicode property `Alphabetic`.
pub uninterp spec fn unicode_alphabetic(c: char) -> bool;

/// Whether `c` belongs to the character class `REMOVE_PAT`.
pub uninterp spec fn slug_removes(c: char) -> bool;

/// What a slug holds for a character that stays: a hyphen for white space,
/// else the character.
pub open spec fn kept_piece(c: char) -> Seq<char> {
    if is_space_char(c) {
        seq!['-']
    } else {
        seq![c]
    }
}

/// What a slug holds for the character `c`. Of the characters that the class
/// removes, the space and the hyphen give a hyphen, alphabetic ones stay, and
/// the others are dropped.
pub open spec fn slug_piece(c: char) -> Seq<char> {
    if !slug_removes(c) {
        kept_piece(c)
    } else if c == ' ' || c == '-' {
        seq!['-']
    } else if unicode_alphabetic(c) {
        kept_piece(c)
    } else {
        Seq::empty()
    }
}

/// The pieces of all characters of `cs`, one after the other.
pub open spec fn slug_pieces(cs: Seq<char>) -> Seq<char>
    decreases cs.len(),
{
    if cs.len() == 0 {
        Seq::empty()
    } else {
        slug_pieces(cs.drop_last()) + slug_piece(cs.last())
    }
}

/// The slug of the text `cs`.
pub open spec fn slug_text(cs: Seq<char>) -> Seq<char> {
    slug_pieces(lowercase_of(cs))
}

/// The decimal digit for `d`.
pub open spec fn digit(d: nat) -> char {
    if d == 0 {
        '0'
    } else if d == 1 {
        '1'
    } else if d == 2 {
        '2'
    } else if d == 3 {
        '3'
    } else if d == 4 {
        '4'
    } else if d == 5 {
        '5'
    } else if d == 6 {
        '6'
    } else if d == 7 {
        '7'
    } else if d == 8 {
        '8'
    } else {
        '9'
    }
}

/// The number `n` in decimal digits.
pub open spec fn decimal(n: nat) -> Seq<char>
    decreases n,
{
    if n < 10 {
        seq![digit(n)]
    } else {
        decimal(n / 10).push(digit(n % 10))
    }
}

/// The `j`-th slug that is tried for `base`: `base` itself, then `base-1`,
/// `base-2` and so on.
pub open spec fn candidate(base: Seq<char>, j: nat) -> Seq<char> {
    if j == 0 {
        base
    } else {
        base + seq!['-'] + decimal(j)
    }
}

/// Whether the `j`-th candidate is the first that is not taken.
pub open spec fn is_first_free(taken: Set<Seq<char>>, base: Seq<char>, j: nat) -> bool {
    &&& !taken.contains(candidate(base, j))
    &&& forall|k: nat| k < j ==> taken.contains(#[trigger] candidate(base, k))
}

/// The number that a decimal digit stands for.
spec fn digit_value(c: char) -> nat {
    if c == '0' {
        0
    } else if c == '1' {
        1
    } else if c == '2' {
        2
    } else if c == '3' {
        3
    } else if c == '4' {
        4
    } else if c == '5' {
        5
    } else if c == '6' {
        6
    } else if c == '7' {
        7
    } else if c == '8' {
        8
    } else {
        9
    }
}

/// The number that decimal digits stand for.
spec fn decimal_value(ds: Seq<char>) -> nat
    decreases ds.len(),
{
    if ds.len() == 0 {
        0
    } else {
        decimal_value(ds.drop_last()) * 10 + digit_value(ds.last())
    }
}

/// The digits of a number stand for that number.
proof fn lemma_decimal_value(n: nat)
    ensures
        decimal_value(decimal(n)) == n,
        decimal(n).len() >= 1,
    decreases n,
{
    if n < 10 {
        assert(seq![digit(n)].drop_last() =~= Seq::<char>::empty());
        assert(decimal_value(Seq::<char>::empty()) == 0);
    } else {
        lemma_decimal_value(n / 10);
        assert(decimal(n).drop_last() =~= decimal(n / 10));
    }
}

/// Different numbers give different candidates.
pub proof fn lemma_candidates_differ(base: Seq<char>, j: nat, k: nat)
    requires
        j != k,
    ensures
        candidate(base, j) != candidate(base, k),
{
    lemma_decimal_value(j);
    lemma_decimal_value(k);
    if j != 0 && k != 0 {
        let a = candidate(base, j);
        let b = candidate(base, k);
        if a == b {
            assert(a.skip(base.len() as int + 1) =~= decimal(j));
            assert(b.skip(base.len() as int + 1) =~= decimal(k));
        }
    }
}

/// The first `i + 1` candidates for `base`.
spec fn candidate_set(base: Seq<char>, i: nat) -> Set<Seq<char>>
    decreases i,
{
    if i == 0 {
        Set::empty().insert(candidate(base, 0))
    } else {
        candidate_set(base, (i - 1) as nat).insert(candidate(base, i))
    }
}

/// The first `i + 1` candidates are `i + 1` different slugs.
proof fn lemma_candidate_set(base: Seq<char>, i: nat)
    ensures
        candidate_set(base, i).finite(),
        candidate_set(base, i).len() == i + 1,
        forall|x: Seq<char>|
            candidate_set(base, i).contains(x) ==> exists|k: nat|
                k <= i && x == #[trigger] candidate(base, k),
    decreases i,
{
    broadcast use vstd::set::group_set_axioms;

    if i > 0 {
        let rest = candidate_set(base, (i - 1) as nat);
        lemma_candidate_set(base, (i - 1) as nat);
        if rest.contains(candidate(base, i)) {
            let k = choose|k: nat| k <= i - 1 && candidate(base, i) == #[trigger] candidate(base, k);
            lemma_candidates_differ(base, i, k);
        }
        assert forall|x: Seq<char>| candidate_set(base, i).contains(x) implies exists|k: nat|
            k <= i && x == #[trigger] candidate(base, k) by {
            if x == candidate(base, i) {
            } else {
                assert(rest.contains(x));
                let k = choose|k: nat| k <= i - 1 && x == #[trigger] candidate(base, k);
                assert(k <= i && x == candidate(base, k));
            }
        }
    }
}

/// Where the first `i + 1` candidates are all taken, their set lies within
/// the taken slugs.
proof fn lemma_candidate_set_within(taken: Set<Seq<char>>, base: Seq<char>, i: nat)
    requires
        forall|k: nat| k <= i ==> taken.contains(#[trigger] candidate(base, k)),
    ensures
        candidate_set(base, i).subset_of(taken),
    decreases i,
{
    broadcast use vstd::set::group_set_axioms;

    if i > 0 {
        lemma_candidate_set_within(taken, base, (i - 1) as nat);
    }
}

/// Where the first `i + 1` candidates are all taken, more than `i` slugs are
/// taken.
pub proof fn lemma_candidates_fit(taken: Set<Seq<char>>, base: Seq<char>, i: nat)
    requires
        taken.finite(),
        forall|k: nat| k <= i ==> taken.contains(#[trigger] candidate(base, k)),
    ensures
        i + 1 <= taken.len(),
{
    lemma_candidate_set(base, i);
    lemma_candidate_set_within(taken, base, i);
    lemma_len_subset(candidate_set(base, i), taken);
}

/// Turns `s` into lower case.
///
/// Wraps `str::to_lowercase`, which goes by Unicode's case tables: the result
/// depends on the characters of `s` alone and is what `lowercase_of` names.
#[verifier::external_body]
fn to_lowercase(s: &str) -> (r: String)
    ensures
        r@ == lowercase_of(s@),
{
    s.to_lowercase()
}

/// Whether `c` is alphabetic.
///
/// Wraps `char::is_alphabetic`, a lookup in Unicode's tables: the answer
/// depends on `c` alone and is what `unicode_alphabetic` names.
#[verifier::external_body]
fn is_alphabetic(c: char) -> (r: bool)
    ensures
        r == unicode_alphabetic(c),
{
    c.is_alphabetic()
}

/// Says of each character of `s` whether the class `REMOVE_PAT` holds it.
///
/// Wraps `Regex::is_match`, asked of each character by itself: a character
/// class matches a text of one character exactly when it holds that
/// character, which is what `slug_removes` names.
#[verifier::external_body]
fn removed_flags(s: &str) -> (r: Vec<bool>)
    ensures
        r@.len() == s@.len(),
        forall|i: int| 0 <= i < s@.len() ==> r@[i] == slug_removes(s@[i]),
{
    let re = Regex::new(REMOVE_PAT).unwrap();
    s.chars().map(|c| re.is_match(c.encode_utf8(&mut [0u8; 4]))).collect()
}

/// Appends the decimal digits of `n` to `out`.
fn push_decimal(out: &mut String, n: usize)
    ensures
        final(out)@ == old(out)@ + decimal(n as nat),
    decreases n,
{
    if n >= 10 {
        push_decimal(out, n / 10);
    }
    let d = n % 10;
    let text = if d == 0 {
        "0"
    } else if d == 1 {
        "1"
    } else if d == 2 {
        "2"
    } else if d == 3 {
        "3"
    } else if d == 4 {
        "4"
    } else if d == 5 {
        "5"
    } else if d == 6 {
        "6"
    } else if d == 7 {
        "7"
    } else if d == 8 {
        "8"
    } else {
        "9"
    };
    proof {
        reveal_strlit("0");
        reveal_strlit("1");
        reveal_strlit("2");
        reveal_strlit("3");
        reveal_strlit("4");
        reveal_strlit("5");
        reveal_strlit("6");
        reveal_strlit("7");
        reveal_strlit("8");
        reveal_strlit("9");
        assert(text@ =~= seq![digit(d as nat)]);
    }
    out.append(text);
    proof {
        if n >= 10 {
            assert(out@ =~= old(out)@ + decimal(n as nat));
        } else {
            assert(out@ =~= old(out)@ + decimal(n as nat));
        }
    }
}

/// The slug `base` with the number `n` behind a hyphen.
fn numbered(base: &str, n: usize) -> (r: String)
    requires
        n > 0,
    ensures
        r@ == candidate(base@, n as nat),
{
    let mut out = base.to_owned();
    proof {
        reveal_strlit("-");
    }
    out.append("-");
    push_decimal(&mut out, n);
    proof {
        assert(out@ =~= base@ + seq!['-'] + decimal(n as nat));
    }
    out
}

/// Makes the slug of `input`: the text in lower case, without the characters
/// that slugs do not keep, and with a hyphen for each space.
pub fn slug(input: &str) -> (r: String)
    ensures
        r@ == slug_text(input@),
{
    let lowered = to_lowercase(input);
    let text = lowered.as_str();
    let flags = removed_flags(text);
    let mut out = String::new();
    let mut i: usize = 0;
    let mut k: usize = 0;
    proof {
        reveal_strlit("-");
        assert(text@.take(0) =~= Seq::<char>::empty());
    }
    while k < flags.len()
        invariant
            k <= flags@.len() == text@.len(),
            i == utf8_len(text@.take(k as int)),
            forall|j: int| 0 <= j < text@.len() ==> flags@[j] == slug_removes(text@[j]),
            out@ == slug_pieces(text@.take(k as int)),
            "-"@ == seq!['-'],
        decreases flags@.len() - k,
    {
        let c = match char_at(text, i, Ghost(k as int)) {
            None => {
                return out;
            },
            Some(c) => c,
        };
        let width = char_len_utf8(c);
        proof {
            assert(text@.take(k + 1).drop_last() =~= text@.take(k as int));
            assert(text@.take(k + 1).last() == c);
        }
        let hyphen = if flags[k] {
            c == ' ' || c == '-' || (is_alphabetic(c) && is_whitespace(c))
        } else {
            is_whitespace(c)
        };
        let keep = !flags[k] || is_alphabetic(c);
        if hyphen {
            out.append("-");
        } else if keep {
            let piece = substring(text, i, i + width, Ghost(k as int), Ghost(k + 1));
            assert(piece@ =~= seq![c]);
            out.append(piece);
        } else {
            assert(out@ + Seq::<char>::empty() =~= out@);
        }
        i += width;
        k += 1;
    }
    assert(text@.take(k as int) =~= text@);
    out
}

/// The slugs given out so far, so that none is given out twice.
#[derive(Debug)]
pub struct Slugger {
    slugs: Vec<String>,
}

/// The texts of a list of strings.
pub open spec fn texts(slugs: Seq<String>) -> Seq<Seq<char>> {
    slugs.map_values(|s: String| s@)
}

impl View for Slugger {
    type V = Set<Seq<char>>;

    /// The slugs given out so far.
    closed spec fn view(&self) -> Set<Seq<char>> {
        texts(self.slugs@).to_set()
    }
}

impl Default for Slugger {
    /// A slugger that has given out nothing yet.
    fn default() -> (r: Slugger)
        ensures
            r@ == Set::<Seq<char>>::empty(),
            r.has_room(),
    {
        Slugger::new()
    }
}

impl Slugger {
    /// A slugger that has given out nothing yet.
    pub fn new() -> (r: Slugger)
        ensures
            r@ == Set::<Seq<char>>::empty(),
            r.has_room(),
    {
        let r = Slugger { slugs: Vec::new() };
        assert(texts(r.slugs@).to_set() =~= Set::<Seq<char>>::empty());
        r
    }

    /// Whether one more slug can be counted.
    pub closed spec fn has_room(&self) -> bool {
        self.slugs@.len() < usize::MAX
    }

    /// Whether one more slug can be counted.
    pub fn can_take_more(&self) -> (r: bool)
        ensures
            r == self.has_room(),
    {
        self.slugs.len() < usize::MAX
    }

    /// Whether the slug `wanted` was given out.
    fn is_taken(&self, wanted: &String) -> (r: bool)
        ensures
            r == self@.contains(wanted@),
    {
        let mut i: usize = 0;
        while i < self.slugs.len()
            invariant
                i <= self.slugs@.len(),
                forall|j: int| 0 <= j < i ==> texts(self.slugs@)[j] != wanted@,
            decreases self.slugs@.len() - i,
        {
            if self.slugs[i] == *wanted {
                assert(texts(self.slugs@)[i as int] == wanted@);
                return true;
            }
            i += 1;
        }
        false
    }

    /// Gives out a slug for `s`.
    ///
    /// The slug is that of the text, or, where that one was given out
    /// before, the first of `slug-1`, `slug-2`, ... that was not.
    pub fn slug(&mut self, s: &str) -> (r: String)
        requires
            old(self).has_room(),
        ensures
            exists|j: nat|
                is_first_free(old(self)@, slug_text(s@), j) && r@ == candidate(slug_text(s@), j),
            final(self)@ == old(self)@.insert(r@),
    {
        let base = slug(s);
        let mut result = base.clone();
        let mut i: usize = 0;
        proof {
            texts(self.slugs@).lemma_cardinality_of_set();
        }
        while self.is_taken(&result)
            invariant
                *self == *old(self),
                i <= self.slugs@.len(),
                self@.finite(),
                self@.len() <= self.slugs@.len() < usize::MAX,
                base@ == slug_text(s@),
                result@ == candidate(base@, i as nat),
                forall|k: nat| k < i ==> self@.contains(#[trigger] candidate(base@, k)),
            decreases self.slugs@.len() - i,
        {
            proof {
                lemma_candidates_fit(self@, base@, i as nat);
            }
            i += 1;
            result = numbered(base.as_str(), i);
        }
        assert(is_first_free(old(self)@, slug_text(s@), i as nat));
        self.slugs.push(result.clone());
        assert(texts(self.slugs@) =~= texts(old(self).slugs@).push(result@));
        assert(texts(self.slugs@).to_set() =~= texts(old(self).slugs@).to_set().insert(result@)) by {
            broadcast use vstd::seq_lib::group_seq_properties;

        }
        result
    }

    /// Forgets the slugs given out so far.
    pub fn reset(&mut self)
        ensures
            final(self)@ == Set::<Seq<char>>::empty(),
            final(self).has_room(),
    {
        self.slugs.clear();
        assert(texts(self.slugs@).to_set() =~= Set::<Seq<char>>::empty());
    }
}

} // verus!
