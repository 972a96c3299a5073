use markdown_it_plugins::scanner::{
    find_autolink, match_at, scheme_before, BareEmailScanner, MatchResult, ProtocolScanner, Scheme,
    WwwScanner,
};

fn result(url: &str, label: &str, backward: usize, forward: usize) -> Option<MatchResult> {
    Some(MatchResult {
        target_url: url.to_string(),
        label_text: label.to_string(),
        backward_chars: backward,
        forward_chars: forward,
    })
}

#[test]
fn www_scanner_matches_after_space() {
    assert_eq!(
        WwwScanner::run("text www.example.com ", 5),
        result("http://www.example.com", "www.example.com", 0, 15)
    );
}

#[test]
fn www_scanner_needs_a_boundary_before() {
    assert_eq!(WwwScanner::run("textwww.example.com", 4), None);
    assert_eq!(WwwScanner::run("[www.example.com", 1), None);
    assert_eq!(
        WwwScanner::run("(www.example.com)", 1),
        result("http://www.example.com", "www.example.com", 0, 15)
    );
}

#[test]
fn www_scanner_rejects_bad_anchors() {
    assert_eq!(WwwScanner::run("www.a.b", 100), None);
    assert_eq!(WwwScanner::run("www.a.b", 7), None);
    assert_eq!(WwwScanner::run("www.a.b", 1), None);
    assert_eq!(WwwScanner::run("Á www.a.b", 1), None);
}

#[test]
fn www_scanner_label_keeps_wide_characters() {
    assert_eq!(
        WwwScanner::run("Á www.Á.com.", 3),
        result("http://www.Á.com", "www.Á.com", 0, 9)
    );
}

#[test]
fn scheme_names_are_found_before_the_anchor() {
    assert_eq!(scheme_before(b"see mailto:", 10), Some(Scheme::Mailto));
    assert_eq!(scheme_before(b"xmpp:", 4), Some(Scheme::Xmpp));
    assert_eq!(scheme_before(b"http:", 4), Some(Scheme::Http));
    assert_eq!(scheme_before(b"https:", 5), Some(Scheme::Https));
    assert_eq!(scheme_before(b"ftp:", 3), Some(Scheme::Ftp));
    assert_eq!(scheme_before(b"ttp:", 3), None);
    assert_eq!(scheme_before(b"http:", 0), None);
    assert_eq!(scheme_before(b"HTTP:", 4), None);
    assert_eq!(scheme_before(b"http", 5), None);
}

#[test]
fn protocol_scanner_matches_http() {
    assert_eq!(
        ProtocolScanner::run("text http://example.com ", 9),
        result("http://example.com", "http://example.com", 4, 14)
    );
    assert_eq!(
        ProtocolScanner::run("https://example.com/a.", 5),
        result("https://example.com/a", "https://example.com/a", 5, 16)
    );
    assert_eq!(
        ProtocolScanner::run("(ftp://example.com)", 4),
        result("ftp://example.com", "ftp://example.com", 3, 14)
    );
}

#[test]
fn protocol_scanner_matches_addresses() {
    assert_eq!(
        ProtocolScanner::run("text mailto:bob@test.com ", 11),
        result("mailto:bob@test.com", "mailto:bob@test.com", 6, 13)
    );
    assert_eq!(
        ProtocolScanner::run("xmpp:bob@test.com/a@b", 4),
        result("xmpp:bob@test.com/a@b", "xmpp:bob@test.com/a@b", 4, 17)
    );
}

#[test]
fn protocol_scanner_needs_a_boundary_before_the_scheme() {
    assert_eq!(ProtocolScanner::run("xhttp://example.com", 5), None);
    assert_eq!(ProtocolScanner::run("[mailto:bob@test.com", 7), None);
}

#[test]
fn protocol_scanner_needs_a_known_scheme() {
    assert_eq!(ProtocolScanner::run("gopher://example.com", 6), None);
    assert_eq!(ProtocolScanner::run("://example.com", 0), None);
    assert_eq!(ProtocolScanner::run("http//example.com", 4), None);
    assert_eq!(ProtocolScanner::run("http:example.com", 4), None);
    assert_eq!(ProtocolScanner::run("http://", 4), None);
    assert_eq!(ProtocolScanner::run("http://a", 100), None);
}

#[test]
fn bare_email_scanner_matches() {
    assert_eq!(
        BareEmailScanner::run("text bob@test.com ", 8),
        result("mailto:bob@test.com", "bob@test.com", 3, 9)
    );
    assert_eq!(
        BareEmailScanner::run("a.b-c_d+e@x.y.", 9),
        result("mailto:a.b-c_d+e@x.y", "a.b-c_d+e@x.y", 9, 4)
    );
}

#[test]
fn bare_email_scanner_needs_a_local_part() {
    assert_eq!(BareEmailScanner::run("@test.com", 0), None);
    assert_eq!(BareEmailScanner::run("a @test.com", 2), None);
    assert_eq!(BareEmailScanner::run("Á@test.com", 2), None);
}

#[test]
fn bare_email_scanner_needs_a_boundary_before_the_local_part() {
    assert_eq!(BareEmailScanner::run("[bob@test.com", 4), None);
    assert_eq!(BareEmailScanner::run("Ábob@test.com", 5), None);
    assert_eq!(
        BareEmailScanner::run("*bob@test.com*", 4),
        result("mailto:bob@test.com", "bob@test.com", 3, 9)
    );
}

#[test]
fn bare_email_scanner_rejects_bad_domains() {
    assert_eq!(BareEmailScanner::run("bob@test", 3), None);
    assert_eq!(BareEmailScanner::run("bob@test.com@x", 3), None);
    assert_eq!(BareEmailScanner::run("bob@test.com-", 3), None);
    assert_eq!(BareEmailScanner::run("bob@", 3), None);
    assert_eq!(BareEmailScanner::run("bob", 3), None);
}

#[test]
fn match_at_goes_by_the_anchor() {
    assert_eq!(match_at("www.a.b", 0), result("http://www.a.b", "www.a.b", 0, 7));
    assert_eq!(match_at("http://a.b", 4), result("http://a.b", "http://a.b", 4, 6));
    assert_eq!(match_at("a@b.c", 1), result("mailto:a@b.c", "a@b.c", 1, 4));
    assert_eq!(match_at("http://a.b", 0), None);
    assert_eq!(match_at("http://a.b", 10), None);
}

#[test]
fn sweep_finds_the_first_link() {
    assert_eq!(
        find_autolink("see www.example.com and http://a.b"),
        result("http://www.example.com", "www.example.com", 0, 15).map(|m| (4, m))
    );
    assert_eq!(
        find_autolink("go to http://a.b/c."),
        result("http://a.b/c", "http://a.b/c", 4, 8).map(|m| (10, m))
    );
    assert_eq!(
        find_autolink("Á write bob@test.com"),
        result("mailto:bob@test.com", "bob@test.com", 3, 9).map(|m| (12, m))
    );
}

#[test]
fn sweep_passes_over_anchors_without_a_link() {
    assert_eq!(find_autolink("no links: w@ here"), None);
    assert_eq!(find_autolink(""), None);
    assert_eq!(
        find_autolink("awww.x.y: www.a.b"),
        result("http://www.a.b", "www.a.b", 0, 7).map(|m| (10, m))
    );
}

#[test]
fn sweep_result_reaches_the_anchor() {
    for text in ["www.a.b", "x mailto:a@b.c", "(a@b.c)", "ftp://a", "https://a.b"] {
        let (_, m) = find_autolink(text).unwrap();
        assert!(m.forward_chars >= 1);
    }
}

#[test]
fn sweep_is_quick_on_long_texts() {
    let mut text = String::new();
    for _ in 0..40_000 {
        text.push_str("w: a@ Áwww.x ");
    }
    assert_eq!(find_autolink(&text), None);
    text.push_str("see (www.example.com/a_(b))!");
    let (anchor, found) = find_autolink(&text).unwrap();
    assert_eq!(anchor, text.len() - 23);
    assert_eq!(found.target_url, "http://www.example.com/a_(b)");
    assert_eq!(found.forward_chars, 21);
}
