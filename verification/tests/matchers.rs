use markdown_it_plugins::ctype::{check_prev, is_valid_hostchar, is_whitespace, isalnum, isalpha, isspace};
use markdown_it_plugins::email::{
    match_any_email, match_bare, match_email, match_mailto, match_xmpp, Protocol,
};
use markdown_it_plugins::url::{match_http, match_url, nonspace_run_len};
use markdown_it_plugins::utils::{autolink_delim, check_domain};
use markdown_it_plugins::text::{char_before, ends_with, link_text, starts_with};
use markdown_it_plugins::www::match_www;

fn link(url: &str, len: usize) -> Option<(String, usize)> {
    Some((url.to_string(), len))
}

#[test]
fn byte_classes() {
    for b in [b' ', b'\t', b'\n', 0x0b, 0x0c, b'\r'] {
        assert!(isspace(b));
    }
    assert!(!isspace(b'a'));
    assert!(!isspace(0xa0));
    assert!(isalpha(b'a') && isalpha(b'Z') && !isalpha(b'0') && !isalpha(b'@'));
    assert!(isalnum(b'a') && isalnum(b'9') && !isalnum(b'_') && !isalnum(0xc3));
}

#[test]
fn white_space_is_the_unicode_class() {
    let spaces = [
        '\u{9}', '\u{a}', '\u{b}', '\u{c}', '\u{d}', ' ', '\u{85}', '\u{a0}', '\u{1680}',
        '\u{2000}', '\u{2005}', '\u{200a}', '\u{2028}', '\u{2029}', '\u{202f}', '\u{205f}',
        '\u{3000}',
    ];
    for c in spaces {
        assert!(is_whitespace(c));
        assert!(c.is_whitespace());
    }
    for c in ['a', '\u{200b}', '\u{180e}', '\u{feff}', '\u{8}', '\u{e}', '\u{1f}'] {
        assert!(!is_whitespace(c));
        assert!(!c.is_whitespace());
    }
}

#[test]
fn white_space_agrees_with_std_on_every_character() {
    for v in 0..=0x10ffffu32 {
        if let Some(c) = char::from_u32(v) {
            assert_eq!(is_whitespace(c), c.is_whitespace());
        }
    }
}

#[test]
fn host_characters() {
    assert!(is_valid_hostchar('a'));
    assert!(is_valid_hostchar('Á'));
    assert!(is_valid_hostchar('日'));
    assert!(is_valid_hostchar('<'));
    assert!(is_valid_hostchar('+'));
    assert!(!is_valid_hostchar(' '));
    assert!(!is_valid_hostchar('\u{3000}'));
    assert!(!is_valid_hostchar('.'));
    assert!(!is_valid_hostchar('/'));
    assert!(!is_valid_hostchar('-'));
    assert!(!is_valid_hostchar('_'));
    assert!(!is_valid_hostchar('。'));
}

#[test]
fn link_boundaries() {
    for c in [' ', '\t', '\r', '\n', '*', '_', '~', '(', '\u{a0}'] {
        assert!(check_prev(c));
    }
    for c in ['a', '[', ')', '-', ':'] {
        assert!(!check_prev(c));
    }
}

#[test]
fn domain_short_names_need_permission() {
    assert_eq!(check_domain(b"localhost", true), Some(9));
    assert_eq!(check_domain(b"localhost", false), None);
    assert_eq!(check_domain(b"example.com", false), Some(11));
}

#[test]
fn domain_rejects_empty_input() {
    assert_eq!(check_domain(b"", true), None);
    assert_eq!(check_domain(b"", false), None);
}

#[test]
fn domain_stops_at_punctuation_and_space() {
    assert_eq!(check_domain(b"a.b/c", true), Some(3));
    assert_eq!(check_domain(b"a.b c", false), Some(3));
    assert_eq!(check_domain(b"a-b.c:80", false), Some(5));
    assert_eq!(check_domain(b" a.b", true), Some(0));
    assert_eq!(check_domain(b" a.b", false), None);
    assert_eq!(check_domain(b"ab/c.d", false), None);
}

#[test]
fn domain_length_is_in_bytes() {
    assert_eq!(check_domain("Á.com".as_bytes(), false), Some(6));
    assert_eq!(check_domain("日本.jp/x".as_bytes(), false), Some(9));
    assert_eq!(check_domain("a.b\u{3000}c".as_bytes(), false), Some(3));
}

#[test]
fn domain_rejects_underscore_in_last_two_labels() {
    assert_eq!(check_domain(b"a_b.c.d", false), Some(7));
    assert_eq!(check_domain(b"a.b_c", false), None);
    assert_eq!(check_domain(b"a.b_c.d", false), None);
    assert_eq!(check_domain(b"a_b", true), None);
    assert_eq!(check_domain(b"a.b_c/d", false), None);
    assert_eq!(check_domain(b"a.b_c.d/e", false), None);
}

#[test]
fn domain_lets_underscores_pass_after_ten_periods() {
    assert_eq!(check_domain(b"a.a.a.a.a.a.a.a.a.a.a_", false), None);
    assert_eq!(check_domain(b"a.a.a.a.a.a.a.a.a.a.a.a_", false), Some(24));
    assert_eq!(check_domain(b"a.a.a.a.a.a.a.a.a.a.a.a_/", false), None);
}

#[test]
fn domain_rejects_bytes_that_are_no_text() {
    assert_eq!(check_domain(&[b'a', b'.', b'b', 0xff], true), None);
    assert_eq!(check_domain(&[0xc3], true), None);
    assert_eq!(check_domain(&[b'a', 0xc3, 0x81], true), Some(3));
}

#[test]
fn trim_drops_sentence_punctuation() {
    for tail in ["?", "!", ".", ",", ":", "*", "_", "~", "'", "\"", "[", "]", ".,;!"] {
        let text = format!("ab{}", tail);
        assert_eq!(autolink_delim(text.as_bytes(), text.len()), 2);
    }
    assert_eq!(autolink_delim(b"ab/", 3), 3);
    assert_eq!(autolink_delim(b"...", 3), 0);
    assert_eq!(autolink_delim(b"", 0), 0);
}

#[test]
fn trim_cuts_at_first_less_than() {
    assert_eq!(autolink_delim(b"ab<cd<ef", 8), 2);
    assert_eq!(autolink_delim(b"ab.<cd", 6), 2);
    assert_eq!(autolink_delim(b"<", 1), 0);
    assert_eq!(autolink_delim(b"ab<cd", 2), 2);
}

#[test]
fn trim_drops_character_references() {
    assert_eq!(autolink_delim(b"ab&amp;", 7), 2);
    assert_eq!(autolink_delim(b"&amp;", 5), 0);
    assert_eq!(autolink_delim(b"ab&amp;&lt;", 11), 2);
    assert_eq!(autolink_delim(b"ab&;", 4), 3);
    assert_eq!(autolink_delim(b"ab&#1;", 6), 5);
    assert_eq!(autolink_delim(b"abc;", 4), 3);
    assert_eq!(autolink_delim(b";", 1), 0);
    assert_eq!(autolink_delim(b"a;", 2), 1);
}

#[test]
fn trim_balances_parentheses() {
    assert_eq!(autolink_delim(b"a(b)", 4), 4);
    assert_eq!(autolink_delim(b"a(b))", 5), 4);
    assert_eq!(autolink_delim(b"a(b)))", 6), 4);
    assert_eq!(autolink_delim(b"a)", 2), 1);
    assert_eq!(autolink_delim(b"((a)", 4), 4);
    assert_eq!(autolink_delim(b"a(b).)", 6), 4);
}

#[test]
fn trim_takes_an_end_inside_or_past_the_buffer() {
    assert_eq!(autolink_delim(b"ab.cd.", 3), 2);
    assert_eq!(autolink_delim(b"ab.", 100), 2);
    assert_eq!(autolink_delim(b"ab", usize::MAX), 2);
}

#[test]
fn trim_is_idempotent_on_samples() {
    let samples: [&[u8]; 6] =
        [b"a(b)))", b"ab&amp;.", b"x<y", b"a.b.c...", b"q=(a)(b))", b"plain"];
    for data in samples {
        for end in 0..=data.len() + 1 {
            let once = autolink_delim(data, end);
            assert_eq!(autolink_delim(data, once), once);
        }
    }
}

#[test]
fn nonspace_run_is_measured_in_bytes() {
    assert_eq!(nonspace_run_len("abc def"), 3);
    assert_eq!(nonspace_run_len("Áb\u{a0}c"), 3);
    assert_eq!(nonspace_run_len("abc"), 3);
    assert_eq!(nonspace_run_len(" abc"), 0);
    assert_eq!(nonspace_run_len(""), 0);
}

#[test]
fn http_matches_only_its_two_schemes() {
    assert_eq!(match_http(b"http://a.b"), link("http://a.b", 10));
    assert_eq!(match_http(b"https://a.b"), link("https://a.b", 11));
    assert_eq!(match_http(b"ftp://a.b"), None);
    assert_eq!(match_http(b"http:/a.b"), None);
    assert_eq!(match_http(b"http://"), None);
    assert_eq!(match_http(b"Http://a.b"), None);
}

#[test]
fn url_matches_ftp_too() {
    assert_eq!(match_url(b"ftp://a.b/c d"), link("ftp://a.b/c", 11));
    assert_eq!(match_url(b"http://a.b"), link("http://a.b", 10));
    assert_eq!(match_url(b"https://a.b"), link("https://a.b", 11));
    assert_eq!(match_url(b"gopher://a.b"), None);
}

#[test]
fn url_host_may_be_empty_before_a_stop() {
    assert_eq!(match_http(b"http:// x"), link("http://", 7));
    assert_eq!(match_http(b"http://."), link("http://", 7));
}

#[test]
fn url_rejects_underscore_hosts() {
    assert_eq!(match_http(b"http://a_b/c"), None);
    assert_eq!(match_http(b"http://a_b.c.d/e"), link("http://a_b.c.d/e", 16));
}

#[test]
fn url_rejects_bytes_that_are_no_text() {
    assert_eq!(match_http(&[b'h', b't', b't', b'p', b':', b'/', b'/', b'a', 0xff]), None);
    assert_eq!(match_www(&[b'w', b'w', b'w', b'.', b'a', b'.', b'b', b' ', 0x80]), None);
}

#[test]
fn www_needs_a_period_behind_the_prefix() {
    assert_eq!(match_www(b"www."), None);
    assert_eq!(match_www(b"www.example"), None);
    assert_eq!(match_www(b"www.example.com"), link("http://www.example.com", 15));
    assert_eq!(match_www(b"wwwexample.com"), None);
    assert_eq!(match_www(b"www..."), link("http://www", 3));
}

#[test]
fn any_email_takes_the_scheme_as_given() {
    assert_eq!(match_any_email(b"foo@bar.baz", 0, Protocol::Bare), link("mailto:foo@bar.baz", 11));
    assert_eq!(
        match_any_email(b"mailto:foo@bar.baz", 7, Protocol::Mailto),
        link("mailto:foo@bar.baz", 18)
    );
    assert_eq!(
        match_any_email(b"xmpp:foo@bar.baz/x", 5, Protocol::Xmpp),
        link("xmpp:foo@bar.baz/x", 18)
    );
    assert_eq!(
        match_any_email(b"xmpp:foo@bar.baz/x", 5, Protocol::Mailto),
        link("xmpp:foo@bar.baz", 16)
    );
}

#[test]
fn any_email_rejects_a_second_at_unless_xmpp() {
    assert_eq!(match_any_email(b"a@b.c@d.e", 0, Protocol::Bare), None);
    assert_eq!(match_any_email(b"mailto:a@b.c@d.e", 7, Protocol::Mailto), None);
    assert_eq!(match_any_email(b"xmpp:a@b.c@d.e", 5, Protocol::Xmpp), link("xmpp:a@b.c@d.e", 14));
}

#[test]
fn any_email_needs_a_local_part() {
    assert_eq!(match_any_email(b"@b.c", 0, Protocol::Bare), None);
    assert_eq!(match_any_email(b"mailto:@b.c", 7, Protocol::Mailto), None);
    assert_eq!(match_any_email(b"a b@c.d", 0, Protocol::Bare), None);
    assert_eq!(match_any_email(b"abc", 0, Protocol::Bare), None);
    assert_eq!(match_any_email(b"", 0, Protocol::Bare), None);
}

#[test]
fn any_email_takes_a_start_past_the_end() {
    assert_eq!(match_any_email(b"a@b.c", 5, Protocol::Bare), None);
    assert_eq!(match_any_email(b"a@b.c", 100, Protocol::Bare), None);
    assert_eq!(match_any_email(b"a@b.c", usize::MAX, Protocol::Bare), None);
}

#[test]
fn any_email_needs_a_period_before_a_letter_or_digit() {
    assert_eq!(match_any_email(b"a@b", 0, Protocol::Bare), None);
    assert_eq!(match_any_email(b"a@b.", 0, Protocol::Bare), None);
    assert_eq!(match_any_email(b"a@b.-", 0, Protocol::Bare), None);
    assert_eq!(match_any_email(b"a@.b", 0, Protocol::Bare), link("mailto:a@.b", 4));
}

#[test]
fn any_email_rejects_a_scheme_that_is_no_text() {
    assert_eq!(match_any_email(&[0xff, b'a', b'@', b'b', b'.', b'c'], 1, Protocol::Mailto), None);
}

#[test]
fn email_picks_the_protocol_by_prefix() {
    assert_eq!(match_email(b"mailto:a@b.c"), link("mailto:a@b.c", 12));
    assert_eq!(match_email(b"xmpp:a@b.c/d"), link("xmpp:a@b.c/d", 12));
    assert_eq!(match_email(b"a@b.c/d"), link("mailto:a@b.c", 5));
    assert_eq!(match_mailto(b"mailto:a@b.c"), link("mailto:a@b.c", 12));
    assert_eq!(match_mailto(b"a@b.c"), None);
    assert_eq!(match_xmpp(b"xmpp:a@b.c"), link("xmpp:a@b.c", 10));
    assert_eq!(match_xmpp(b"mailto:a@b.c"), None);
    assert_eq!(match_bare(b"a@b.c"), link("mailto:a@b.c", 5));
    assert_eq!(match_bare(b"mailto:a@b.c"), None);
}

#[test]
fn previous_character_is_found_from_a_byte_offset() {
    let text = "aÁ日😀b";
    assert_eq!(char_before(text, 0), None);
    assert_eq!(char_before(text, 1), Some('a'));
    assert_eq!(char_before(text, 2), None);
    assert_eq!(char_before(text, 3), Some('Á'));
    assert_eq!(char_before(text, 4), None);
    assert_eq!(char_before(text, 5), None);
    assert_eq!(char_before(text, 6), Some('日'));
    assert_eq!(char_before(text, 7), None);
    assert_eq!(char_before(text, 10), Some('😀'));
    assert_eq!(char_before(text, 11), Some('b'));
    assert_eq!(char_before(text, 12), None);
    assert_eq!(char_before("", 0), None);
}

#[test]
fn prefixes_and_suffixes_are_compared_by_bytes() {
    assert!(starts_with(b"http://x", "http://"));
    assert!(starts_with(b"http://", "http://"));
    assert!(!starts_with(b"http:/", "http://"));
    assert!(!starts_with(b"xhttp://", "http://"));
    assert!(starts_with(b"anything", ""));
    assert!(ends_with(b"see http:", 8, "http"));
    assert!(!ends_with(b"see http:", 9, "http"));
    assert!(!ends_with(b"ttp", 3, "http"));
    assert!(ends_with(b"abc", 0, ""));
}

#[test]
fn link_text_needs_well_formed_bytes() {
    assert_eq!(link_text("aÁb".as_bytes(), 4), Some(("aÁb".to_string(), 3)));
    assert_eq!(link_text("aÁb".as_bytes(), 3), Some(("aÁ".to_string(), 2)));
    assert_eq!(link_text("aÁb".as_bytes(), 2), None);
    assert_eq!(link_text(b"", 0), Some((String::new(), 0)));
}

#[test]
fn helpers_take_an_end_past_the_buffer() {
    assert!(!ends_with(b"http", 5, "http"));
    assert!(!ends_with(b"", 1, ""));
    assert_eq!(link_text(b"abc", 4), None);
}
