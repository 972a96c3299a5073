use markdown_it_plugins::deflist::{is_description_line, skip_blanks};
use markdown_it_plugins::fixture::{
    parse_fixture, strip_leading_newlines, strip_trailing_newlines, FixtureError, FixtureFile,
};
use markdown_it_plugins::front_matter::{closes_fence, find_closing_line, opening_fence};
use markdown_it_plugins::heading_anchors::{AnchorPosition, HeadingAnchorOptions};
use markdown_it_plugins::slugger::{slug, Slugger};
use markdown_it_plugins::tasklist::{parse_checkbox, TodoCheckbox};

#[test]
fn checkbox_is_read_at_the_start() {
    assert_eq!(parse_checkbox("[ ] task"), Some((false, 3)));
    assert_eq!(parse_checkbox("[x] task"), Some((true, 3)));
    assert_eq!(parse_checkbox("[X]\ttask"), Some((true, 3)));
    assert_eq!(parse_checkbox("[x]\n"), Some((true, 3)));
    assert_eq!(parse_checkbox("[\t] task"), Some((false, 3)));
    assert_eq!(parse_checkbox("[\u{a0}] task"), Some((false, 4)));
    assert_eq!(parse_checkbox("[x]\u{3000}task"), Some((true, 3)));
}

#[test]
fn checkbox_needs_all_four_characters() {
    for text in ["", "[", "[x", "[x]", "[x]task", "[y] task", "[] task", "x] task", " [x] task",
        "[xx] task", "(x) task"]
    {
        assert_eq!(parse_checkbox(text), None);
    }
}

#[test]
fn checkbox_node_carries_the_setting() {
    assert_eq!(
        TodoCheckbox::from_text("[x] a", true),
        Some((TodoCheckbox { checked: true, disabled: true }, 3))
    );
    assert_eq!(
        TodoCheckbox::from_text("[ ] a", false),
        Some((TodoCheckbox { checked: false, disabled: false }, 3))
    );
    assert_eq!(TodoCheckbox::from_text("a", false), None);
}

#[test]
fn fence_needs_three_dashes() {
    assert_eq!(opening_fence("---"), Some(3));
    assert_eq!(opening_fence("-----"), Some(5));
    assert_eq!(opening_fence("--- x"), Some(3));
    assert_eq!(opening_fence("--"), None);
    assert_eq!(opening_fence(""), None);
    assert_eq!(opening_fence(" ---"), None);
    assert_eq!(opening_fence("--x-"), None);
}

#[test]
fn fence_closes_with_as_many_dashes() {
    assert!(closes_fence("---", 3));
    assert!(closes_fence("-----", 3));
    assert!(closes_fence("--- trailing", 3));
    assert!(!closes_fence("--", 3));
    assert!(!closes_fence("---", 4));
    assert!(!closes_fence(" ---", 3));
    assert!(closes_fence("anything", 0));
}

#[test]
fn closing_line_is_the_first_after_the_opening() {
    assert_eq!(find_closing_line(&["---", "foo: bar", "---", "hallo", "---"], 3), Some(2));
    assert_eq!(find_closing_line(&["---", "---"], 3), Some(1));
    assert_eq!(find_closing_line(&["----", "---", "a", "-----"], 4), Some(3));
    assert_eq!(find_closing_line(&["---", "foo: bar"], 3), None);
    assert_eq!(find_closing_line(&["---"], 3), None);
    assert_eq!(find_closing_line(&[], 3), None);
}

#[test]
fn description_lines_have_marker_space_and_content() {
    for line in [": foo", "~ foo", ":\tfoo", ":   foo", ": \t x", ": :"] {
        assert!(is_description_line(line));
    }
    for line in ["", ":", ": ", ":  \t", ":foo", "foo", " : foo", "- foo", "~", "~~ x"] {
        assert!(!is_description_line(line));
    }
}

#[test]
fn anchor_options_default_to_all_levels() {
    let options = HeadingAnchorOptions::default();
    assert_eq!(options.min_level, 1);
    assert_eq!(options.max_level, 6);
    assert!(!options.id_on_heading);
    assert_eq!(options.position, AnchorPosition::Start);
    assert_eq!(options.classes, vec!["anchor".to_string()]);
    assert!(options.inner_html.starts_with("<svg class=\"octicon octicon-link\""));
    assert!(options.inner_html.ends_with("</svg>"));
    for level in 1..=6 {
        assert!(options.applies_to(level));
    }
    assert!(!options.applies_to(0));
    assert!(!options.applies_to(7));
}

#[test]
fn anchor_id_stands_in_one_place() {
    let mut options = HeadingAnchorOptions::default();
    options.inner_html = "¶".to_string();
    let (heading_id, link) = options.anchor_for("my-heading");
    assert_eq!(heading_id, None);
    assert_eq!(link.href, "my-heading");
    assert_eq!(link.id, Some("my-heading".to_string()));
    assert_eq!(link.inner_html, "¶");
    options.id_on_heading = true;
    let (heading_id, link) = options.anchor_for("my-heading");
    assert_eq!(heading_id, Some("my-heading".to_string()));
    assert_eq!(link.href, "my-heading");
    assert_eq!(link.id, None);
}

#[test]
fn anchor_levels_follow_the_options() {
    let mut options = HeadingAnchorOptions::default();
    options.min_level = 2;
    options.max_level = 3;
    assert!(!options.applies_to(1));
    assert!(options.applies_to(2));
    assert!(options.applies_to(3));
    assert!(!options.applies_to(4));
}

#[test]
fn slug_lowers_and_hyphenates() {
    assert_eq!(slug("Hello World"), "hello-world");
    assert_eq!(slug("hello"), "hello");
    assert_eq!(slug(""), "");
    assert_eq!(slug("a-b"), "a-b");
    assert_eq!(slug("a  b"), "a--b");
    assert_eq!(slug("A_B c"), "a_b-c");
}

#[test]
fn slug_drops_punctuation_and_symbols() {
    assert_eq!(slug("Hello, World!"), "hello-world");
    assert_eq!(slug("What's new?"), "whats-new");
    assert_eq!(slug("a+b=c"), "abc");
    assert_eq!(slug("1. intro"), "1-intro");
    assert_eq!(slug("tab\there"), "tabhere");
    assert_eq!(slug("½ cup"), "-cup");
    assert_eq!(slug("I ♥ you"), "i--you");
}

#[test]
fn slug_keeps_letters_of_all_scripts() {
    assert_eq!(slug("Привет Мир"), "привет-мир");
    assert_eq!(slug("Ünïcödé"), "ünïcödé");
    assert_eq!(slug("日本語 text"), "日本語-text");
    assert_eq!(slug("ⓐⓑ c"), "ⓐⓑ-c");
}

#[test]
fn slugger_numbers_repeated_slugs() {
    let mut slugger = Slugger::default();
    assert_eq!(slugger.slug("foo"), "foo");
    assert_eq!(slugger.slug("foo"), "foo-1");
    assert_eq!(slugger.slug("Foo"), "foo-2");
    assert_eq!(slugger.slug("bar"), "bar");
    assert_eq!(slugger.slug("foo"), "foo-3");
}

#[test]
fn slugger_skips_numbers_that_are_taken() {
    let mut slugger = Slugger::new();
    assert_eq!(slugger.slug("foo 1"), "foo-1");
    assert_eq!(slugger.slug("foo"), "foo");
    assert_eq!(slugger.slug("foo"), "foo-2");
    assert_eq!(slugger.slug("foo-2"), "foo-2-1");
}

#[test]
fn slugger_counts_past_nine() {
    let mut slugger = Slugger::new();
    assert_eq!(slugger.slug("x"), "x");
    for n in 1..=12 {
        assert_eq!(slugger.slug("x"), format!("x-{}", n));
    }
    for n in 13..=101 {
        assert_eq!(slugger.slug("X"), format!("x-{}", n));
    }
}

#[test]
fn slugger_forgets_on_reset() {
    let mut slugger = Slugger::new();
    assert_eq!(slugger.slug("foo"), "foo");
    assert_eq!(slugger.slug("foo"), "foo-1");
    slugger.reset();
    assert_eq!(slugger.slug("foo"), "foo");
}

#[test]
fn fixture_has_three_parts() {
    let text = "Title line\n......\n\ninput a\ninput b\n\n......\n\nexpected a\n\nexpected b\n";
    assert_eq!(
        parse_fixture(text),
        Ok((
            "Title line\n".to_string(),
            "input a\ninput b".to_string(),
            "expected a\n\nexpected b\n".to_string()
        ))
    );
}

#[test]
fn fixture_lines_lose_their_carriage_returns() {
    let text = "t\r\n....\r\na\r\nb\r\r\n....\r\ne\r\nlast\r";
    assert_eq!(
        parse_fixture(text),
        Ok(("t\n".to_string(), "a\nb\r".to_string(), "e\nlast\r\n".to_string()))
    );
}

#[test]
fn fixture_parts_may_be_empty() {
    assert_eq!(
        parse_fixture("....\n...."),
        Ok(("".to_string(), "".to_string(), "".to_string()))
    );
    assert_eq!(
        parse_fixture("\n\n....x\n\n\n.....\n\n\n"),
        Ok(("\n\n".to_string(), "".to_string(), "".to_string()))
    );
}

#[test]
fn fixture_needs_both_separators() {
    assert_eq!(parse_fixture(""), Err(FixtureError::MissingInput));
    assert_eq!(parse_fixture("title\n...\n"), Err(FixtureError::MissingInput));
    assert_eq!(parse_fixture("title\n....\ninput\n"), Err(FixtureError::MissingExpected));
    assert_eq!(parse_fixture("title\n...."), Err(FixtureError::MissingExpected));
    assert_eq!(parse_fixture(" ....\n....\n"), Err(FixtureError::MissingExpected));
}

#[test]
fn fixture_file_keeps_its_path() {
    let f = FixtureFile::parse("tests/fixtures/a.md", "T\n....\nin\n....\nout\n").unwrap();
    assert_eq!(
        f,
        FixtureFile {
            file: "tests/fixtures/a.md".to_string(),
            title: "T\n".to_string(),
            input: "in".to_string(),
            expected: "out\n".to_string(),
        }
    );
    assert_eq!(FixtureFile::parse("a.md", "T"), Err(FixtureError::MissingInput));
}

#[test]
fn newlines_are_stripped_at_either_end() {
    assert_eq!(strip_leading_newlines("\n\na\n"), "a\n");
    assert_eq!(strip_leading_newlines("a"), "a");
    assert_eq!(strip_leading_newlines("\n\n"), "");
    assert_eq!(strip_leading_newlines(""), "");
    assert_eq!(strip_trailing_newlines("\na\n\n"), "\na");
    assert_eq!(strip_trailing_newlines("a\nb"), "a\nb");
    assert_eq!(strip_trailing_newlines("é\n"), "é");
    assert_eq!(strip_trailing_newlines("\n"), "");
    assert_eq!(strip_trailing_newlines(""), "");
}

#[test]
fn lib_it_works() {
    let source = "---\nfoo: bar\n---\nhallo\n";
    let lines: Vec<&str> = source.lines().collect();
    let fence = opening_fence(lines[0]);
    assert_eq!(fence, Some(3));
    let closing = find_closing_line(&lines, 3);
    assert_eq!(closing, Some(2));
    assert_eq!(lines[1..2].join("\n"), "foo: bar");
    assert_eq!(lines[3..].join("\n"), "hallo");
}

#[test]
fn test_definition_list() {
    let source = "test\n  : foo\n     : bar\n";
    let lines: Vec<&str> = source.lines().map(|line| line.trim_start()).collect();
    assert!(!is_description_line(lines[0]));
    assert!(is_description_line(lines[1]));
    assert!(is_description_line(lines[2]));
}

#[test]
fn blanks_before_a_description_are_counted_in_columns() {
    assert_eq!(skip_blanks(":  foo", 1, 6, 1), Some((3, 3)));
    assert_eq!(skip_blanks(":\tfoo", 1, 5, 1), Some((2, 4)));
    assert_eq!(skip_blanks(": \t foo", 1, 7, 1), Some((4, 5)));
    assert_eq!(skip_blanks(":\t\tfoo", 1, 6, 4), Some((3, 12)));
    assert_eq!(skip_blanks(":foo", 1, 4, 1), Some((1, 1)));
    assert_eq!(skip_blanks(":   ", 1, 4, 0), Some((4, 3)));
    assert_eq!(skip_blanks(":  \nfoo", 1, 3, 0), Some((3, 2)));
}

#[test]
fn blanks_are_not_read_past_the_line_or_the_text() {
    assert_eq!(skip_blanks(":   x", 1, 3, 0), Some((3, 2)));
    assert_eq!(skip_blanks(":   x", 3, 3, 7), Some((3, 7)));
    assert_eq!(skip_blanks(":   x", 4, 2, 7), Some((4, 7)));
    assert_eq!(skip_blanks(":   ", 1, 9, 0), None);
    assert_eq!(skip_blanks(": ", 5, 9, 0), None);
    assert_eq!(skip_blanks("", 0, 1, 0), None);
    assert_eq!(skip_blanks("", 0, 0, 0), Some((0, 0)));
}

#[test]
fn test_cases() {
    let cases = [
        ("plain", "foo", "foo"),
        ("repeat", "foo", "foo-1"),
        ("space", "Hello World", "hello-world"),
        ("symbol", "I ♥ unicode", "i--unicode"),
        ("hyphen", "Dash-dash", "dash-dash"),
        ("en dash", "en–dash", "endash"),
        ("case", "fooCamelCase", "foocamelcase"),
        ("underscore", "foo_bar", "foo_bar"),
        ("punctuation", "hello!", "hello"),
        ("leading space", "  space", "--space"),
        ("repeat again", "Foo", "foo-2"),
        ("digits", "Version 2.0", "version-20"),
    ];
    let mut slugger = Slugger::default();
    for (num, (name, input, expected)) in cases.iter().enumerate() {
        let actual = slugger.slug(input);
        assert_eq!(&actual, expected, "case #{}: {}", num, name);
    }
}
