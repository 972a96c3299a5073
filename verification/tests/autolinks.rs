use markdown_it_plugins::autolinks::{match_index, match_start};

fn found(url: &str, len: usize) -> Option<(String, usize)> {
    Some((url.to_string(), len))
}

#[test]
fn start_rejects_empty_text() {
    assert_eq!(match_start(""), None);
}

#[test]
fn start_rejects_plain_words() {
    assert_eq!(match_start(" "), None);
    assert_eq!(match_start("foo"), None);
    assert_eq!(match_start("example.com"), None);
}

#[test]
fn start_rejects_www_alone() {
    assert_eq!(match_start("www."), None);
}

#[test]
fn start_rejects_address_without_local_part() {
    assert_eq!(match_start("@example.com"), None);
    assert_eq!(match_start("mailto:@example.com"), None);
}

#[test]
fn start_matches_short_hosts_behind_a_scheme() {
    assert_eq!(match_start("http://localhost:3000"), found("http://localhost:3000", 21));
    assert_eq!(match_start("https://localhost:3000"), found("https://localhost:3000", 22));
    assert_eq!(match_start("ftp://localhost:3000"), found("ftp://localhost:3000", 20));
}

#[test]
fn start_counts_characters_not_bytes() {
    assert_eq!(match_start("http://Á.com"), found("http://Á.com", 12));
    assert_eq!(match_start("www.Á.com"), found("http://www.Á.com", 9));
}

#[test]
fn start_keeps_nested_parentheses() {
    let url = "https://www.wolframalpha.com/input/?i=x^2+(y-(x^2)^(1/3))^2=1";
    assert_eq!(match_start(url), found(url, 61));
}

#[test]
fn start_matches_www() {
    assert_eq!(match_start("www.example.com"), found("http://www.example.com", 15));
    assert_eq!(match_start("www.commonmark.org"), found("http://www.commonmark.org", 18));
}

#[test]
fn index_zero_needs_no_guard() {
    assert_eq!(match_index("www.commonmark.org", 0), found("http://www.commonmark.org", 18));
    assert_eq!(match_index(" www.commonmark.org", 0), None);
}

#[test]
fn index_past_the_end_is_no_match() {
    assert_eq!(match_index("www.commonmark.org", 100), None);
}

#[test]
fn index_after_space_matches() {
    assert_eq!(match_index(" www.commonmark.org", 1), found("http://www.commonmark.org", 18));
}

#[test]
fn index_after_bracket_is_no_match() {
    assert_eq!(match_index("[www.commonmark.org", 1), None);
}

#[test]
fn start_first_scenario_counts_twenty_one_characters() {
    assert_eq!(match_start("http://commonmark.org"), found("http://commonmark.org", 21));
}

#[test]
fn start_stops_at_white_space() {
    assert_eq!(
        match_start("www.commonmark.org/help for more information."),
        found("http://www.commonmark.org/help", 23)
    );
}

#[test]
fn start_stops_at_unicode_white_space() {
    assert_eq!(
        match_start("http://example.com/a\u{3000}b"),
        found("http://example.com/a", 20)
    );
    assert_eq!(match_start("www.example.com\u{a0}x"), found("http://www.example.com", 15));
}

#[test]
fn start_trims_trailing_period() {
    assert_eq!(match_start("www.commonmark.org."), found("http://www.commonmark.org", 18));
    assert_eq!(
        match_start("www.commonmark.org/a.b."),
        found("http://www.commonmark.org/a.b", 22)
    );
}

#[test]
fn start_keeps_balanced_parenthesis() {
    assert_eq!(
        match_start("www.google.com/search?q=Markup+(business)"),
        found("http://www.google.com/search?q=Markup+(business)", 41)
    );
}

#[test]
fn start_trims_unbalanced_parentheses() {
    assert_eq!(
        match_start("www.google.com/search?q=Markup+(business)))"),
        found("http://www.google.com/search?q=Markup+(business)", 41)
    );
    assert_eq!(
        match_start("https://encrypted.google.com/search?q=Markup+(business))"),
        found("https://encrypted.google.com/search?q=Markup+(business)", 55)
    );
}

#[test]
fn start_keeps_parenthesis_inside_the_link() {
    assert_eq!(
        match_start("www.google.com/search?q=(business))+ok"),
        found("http://www.google.com/search?q=(business))+ok", 38)
    );
}

#[test]
fn start_keeps_ampersand_without_semicolon() {
    assert_eq!(
        match_start("www.google.com/search?q=commonmark&hl=en"),
        found("http://www.google.com/search?q=commonmark&hl=en", 40)
    );
}

#[test]
fn start_trims_character_reference() {
    assert_eq!(
        match_start("www.google.com/search?q=commonmark&hl;"),
        found("http://www.google.com/search?q=commonmark", 34)
    );
}

#[test]
fn start_cuts_at_less_than() {
    assert_eq!(
        match_start("www.commonmark.org/he<lp"),
        found("http://www.commonmark.org/he", 21)
    );
}

#[test]
fn start_matches_bare_address() {
    assert_eq!(match_start("foo@bar.baz"), found("mailto:foo@bar.baz", 11));
    assert_eq!(match_start("john@example.com"), found("mailto:john@example.com", 16));
}

#[test]
fn start_rejects_address_without_period() {
    assert_eq!(match_start("foo@bar"), None);
}

#[test]
fn start_rejects_plus_in_domain() {
    assert_eq!(match_start("hello@mail+xyz.example"), None);
}

#[test]
fn start_accepts_plus_in_local_part() {
    assert_eq!(
        match_start("hello+xyz@mail.example"),
        found("mailto:hello+xyz@mail.example", 22)
    );
}

#[test]
fn start_address_ends_before_trailing_period() {
    assert_eq!(match_start("a.b-c_d@a.b"), found("mailto:a.b-c_d@a.b", 11));
    assert_eq!(match_start("a.b-c_d@a.b."), found("mailto:a.b-c_d@a.b", 11));
}

#[test]
fn start_rejects_address_ending_in_hyphen_or_underscore() {
    assert_eq!(match_start("a.b-c_d@a.b-"), None);
    assert_eq!(match_start("a.b-c_d@a.b_"), None);
    assert_eq!(match_start("mailto:a.b-c_d@a.b-"), None);
    assert_eq!(match_start("mailto:a.b-c_d@a.b_"), None);
}

#[test]
fn start_accepts_address_ending_in_digit() {
    assert_eq!(match_start("a@b.c1"), found("mailto:a@b.c1", 6));
}

#[test]
fn start_mailto_is_not_doubled() {
    assert_eq!(match_start("mailto:a@b.c"), found("mailto:a@b.c", 12));
    assert_eq!(match_start("mailto:foo@bar.baz"), found("mailto:foo@bar.baz", 18));
    assert_eq!(match_start("mailto:a.b-c_d@a.b"), found("mailto:a.b-c_d@a.b", 18));
    assert_eq!(match_start("mailto:a.b-c_d@a.b."), found("mailto:a.b-c_d@a.b", 18));
}

#[test]
fn start_mailto_stops_at_slash() {
    assert_eq!(match_start("mailto:a.b-c_d@a.b/"), found("mailto:a.b-c_d@a.b", 18));
}

#[test]
fn start_matches_xmpp() {
    assert_eq!(match_start("xmpp:john@example.com"), found("xmpp:john@example.com", 21));
    assert_eq!(match_start("xmpp:foo@bar.baz"), found("xmpp:foo@bar.baz", 16));
    assert_eq!(match_start("xmpp:foo@bar.baz."), found("xmpp:foo@bar.baz", 16));
}

#[test]
fn start_xmpp_allows_one_slash_and_a_second_at() {
    assert_eq!(match_start("xmpp:foo@bar.baz/txt"), found("xmpp:foo@bar.baz/txt", 20));
    assert_eq!(match_start("xmpp:foo@bar.baz/txt@bin"), found("xmpp:foo@bar.baz/txt@bin", 24));
    assert_eq!(
        match_start("xmpp:foo@bar.baz/txt@bin.com"),
        found("xmpp:foo@bar.baz/txt@bin.com", 28)
    );
}

#[test]
fn start_xmpp_stops_at_second_slash() {
    assert_eq!(match_start("xmpp:foo@bar.baz/txt/bin"), found("xmpp:foo@bar.baz/txt", 20));
}

#[test]
fn start_prefers_scheme_over_www_and_address() {
    assert_eq!(match_start("http://www.a.b"), found("http://www.a.b", 14));
    assert_eq!(match_start("www.a.b@c.d"), found("http://www.a.b@c.d", 11));
    assert_eq!(match_start("www.a@b.c"), found("mailto:www.a@b.c", 9));
}

#[test]
fn index_after_delimiters_matches() {
    for text in ["*www.a.b", "_www.a.b", "~www.a.b", "(www.a.b", "\twww.a.b", "\nwww.a.b"] {
        assert_eq!(match_index(text, 1), found("http://www.a.b", 7));
    }
}

#[test]
fn index_after_unicode_white_space_matches() {
    assert_eq!(match_index("\u{3000}www.a.b", 3), found("http://www.a.b", 7));
}

#[test]
fn index_inside_a_character_is_no_match() {
    assert_eq!(match_index("\u{3000}www.a.b", 1), None);
    assert_eq!(match_index("Áwww.a.b", 1), None);
}

#[test]
fn index_after_letter_is_no_match() {
    assert_eq!(match_index("awww.a.b", 1), None);
    assert_eq!(match_index("Áwww.a.b", 2), None);
}

#[test]
fn index_at_the_end_is_no_match() {
    assert_eq!(match_index("www.a.b ", 8), None);
}
