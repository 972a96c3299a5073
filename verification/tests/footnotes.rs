use markdown_it_plugins::footnote::{parse_definition_head, parse_reference, FootnoteMap};

#[test]
fn definitions_are_numbered_from_one() {
    let mut map = FootnoteMap::new();
    assert_eq!(map.add_def("a"), Some(1));
    assert_eq!(map.add_def("b"), Some(2));
    assert_eq!(map.add_def("c"), Some(3));
}

#[test]
fn a_label_is_defined_once() {
    let mut map = FootnoteMap::new();
    assert_eq!(map.add_def("note"), Some(1));
    assert_eq!(map.add_def("note"), None);
    assert_eq!(map.add_def("other"), Some(2));
}

#[test]
fn references_need_a_definition() {
    let mut map = FootnoteMap::default();
    assert_eq!(map.add_ref("note"), None);
    assert_eq!(map.add_def("note"), Some(1));
    assert_eq!(map.add_ref("note"), Some((1, 1)));
    assert_eq!(map.add_ref("missing"), None);
    assert_eq!(map.add_ref("note"), Some((1, 2)));
}

#[test]
fn references_are_kept_per_definition() {
    let mut map = FootnoteMap::new();
    map.add_def("a");
    map.add_def("b");
    assert_eq!(map.add_ref("b"), Some((2, 1)));
    assert_eq!(map.add_ref("a"), Some((1, 2)));
    assert_eq!(map.add_ref("b"), Some((2, 3)));
    assert_eq!(map.referenced_by(1), vec![2]);
    assert_eq!(map.referenced_by(2), vec![1, 3]);
    assert_eq!(map.referenced_by(3), Vec::<usize>::new());
    assert_eq!(map.referenced_by(0), Vec::<usize>::new());
}

#[test]
fn inline_definitions_take_both_numbers() {
    let mut map = FootnoteMap::new();
    assert_eq!(map.add_def("a"), Some(1));
    assert_eq!(map.add_ref("a"), Some((1, 1)));
    assert_eq!(map.add_inline_def(), (2, 2));
    assert_eq!(map.add_inline_def(), (3, 3));
    assert_eq!(map.referenced_by(2), vec![2]);
    assert_eq!(map.referenced_by(3), vec![3]);
    assert_eq!(map.add_def("b"), Some(4));
    assert_eq!(map.add_ref("b"), Some((4, 4)));
}

#[test]
fn definition_head_gives_label_and_indent() {
    assert_eq!(parse_definition_head("[^note]: a"), Some(("note".to_string(), 1)));
    assert_eq!(parse_definition_head("[^note]:a"), Some(("note".to_string(), 0)));
    assert_eq!(parse_definition_head("[^note]:"), Some(("note".to_string(), 0)));
    assert_eq!(parse_definition_head("[^note]:   a"), Some(("note".to_string(), 3)));
    assert_eq!(parse_definition_head("[^n]:\ta"), Some(("n".to_string(), 4)));
    assert_eq!(parse_definition_head("[^n]: \ta"), Some(("n".to_string(), 4)));
    assert_eq!(parse_definition_head("[^n]:   \t a"), Some(("n".to_string(), 5)));
    assert_eq!(parse_definition_head("[^n]:\t\t"), Some(("n".to_string(), 8)));
    assert_eq!(parse_definition_head("[^é√]: a"), Some(("é√".to_string(), 1)));
    assert_eq!(parse_definition_head("[^a\tb\\]: x"), Some(("a\tb\\".to_string(), 1)));
}

#[test]
fn definition_head_rejects_other_lines() {
    for line in ["", "[", "[^", "[^]", "[^]: a", "[^a", "[^a]", "[^a] : b", "[^a b]: c", "[a]: b",
        "^[a]: b", " [^a]: b", "[^a]x: b"]
    {
        assert_eq!(parse_definition_head(line), None);
    }
}

#[test]
fn reference_gives_label_and_length_in_bytes() {
    assert_eq!(parse_reference("[^note]"), Some(("note".to_string(), 7)));
    assert_eq!(parse_reference("[^note] and more"), Some(("note".to_string(), 7)));
    assert_eq!(parse_reference("[^1]: x"), Some(("1".to_string(), 4)));
    assert_eq!(parse_reference("[^é]"), Some(("é".to_string(), 5)));
}

#[test]
fn reference_rejects_other_text() {
    for src in ["", "[^]", "[^a", "[^a b]", "[a]", "x[^a]", "[^ a]"] {
        assert_eq!(parse_reference(src), None);
    }
}

#[test]
fn definitions_it_works() {
    let source = "[^note]: a\n\nhallo\nthere\n";
    let first = source.lines().next().unwrap();
    assert_eq!(parse_definition_head(first), Some(("note".to_string(), 1)));
    let mut map = FootnoteMap::new();
    assert_eq!(map.add_def("note"), Some(1));
    assert_eq!(map.def_count(), 1);
    assert_eq!(map.ref_count(), 0);
}
