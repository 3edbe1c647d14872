use confparse::{Configuration, Error};

fn parse(text: &str) -> Configuration {
    match Configuration::parse(text) {
        Ok(c) => c,
        Err(e) => panic!("unexpected failure: {:?}", e),
    }
}

fn failure(text: &str) -> Error {
    match Configuration::parse(text) {
        Ok(_) => panic!("expected a failure"),
        Err(e) => e,
    }
}

#[test]
fn scalar_members_at_top_level() {
    let c = parse("name: demo\nport: 80\n");
    assert_eq!(c.get("name"), Some("demo"));
    assert_eq!(c.get("port"), Some("80"));
    assert_eq!(c.get("missing"), None);
}

#[test]
fn nested_objects_compose_paths() {
    let c = parse("outer {\n  inner {\n    leaf: v\n  }\n}\n");
    assert_eq!(c.get("outer.inner.leaf"), Some("v"));
    assert_eq!(c.get("outer.inner"), None);
    assert_eq!(c.get("leaf"), None);
}

#[test]
fn deep_nesting() {
    let c = parse("a {\nb {\nc {\nd {\ne: deep\n}\n}\n}\n}\n");
    assert_eq!(c.get("a.b.c.d.e"), Some("deep"));
}

#[test]
fn array_elements_are_numbered_from_zero() {
    let c = parse("list [\n  {\n    a: 1\n  }\n  {\n    b: 2\n  }\n]\n");
    assert_eq!(c.get("list.0.a"), Some("1"));
    assert_eq!(c.get("list.1.b"), Some("2"));
    assert_eq!(c.get("list.0.b"), None);
}

#[test]
fn array_indexes_past_nine() {
    let mut text = String::from("xs [\n");
    for _ in 0..12 {
        text.push_str("{\nv: x\n}\n");
    }
    text.push_str("]\n");
    let c = parse(&text);
    assert_eq!(c.get("xs.0.v"), Some("x"));
    assert_eq!(c.get("xs.10.v"), Some("x"));
    assert_eq!(c.get("xs.11.v"), Some("x"));
    assert_eq!(c.get("xs.12.v"), None);
}

#[test]
fn nested_arrays() {
    let c = parse("m [\n[\n{\nk: a\n}\n]\n[\n]\n{\nk: b\n}\n]\n");
    assert_eq!(c.get("m.0.0.k"), Some("a"));
    assert_eq!(c.get("m.2.k"), Some("b"));
}

#[test]
fn trailing_comment_is_excluded_from_value() {
    let c = parse("key: value   # trailing\nnext: two\n");
    assert_eq!(c.get("key"), Some("value"));
    assert_eq!(c.get("next"), Some("two"));
}

#[test]
fn comments_and_blank_lines_are_ignored() {
    let c = parse("# heading\n\n   # indented comment\nk: v\n# last");
    assert_eq!(c.get("k"), Some("v"));
}

#[test]
fn values_and_names_are_trimmed() {
    let c = parse("  spaced key  :   a b c  \t\n");
    assert_eq!(c.get("spaced key"), Some("a b c"));
}

#[test]
fn empty_value_is_kept() {
    let c = parse("k:\n");
    assert_eq!(c.get("k"), Some(""));
}

#[test]
fn value_may_end_the_input() {
    let c = parse("k: last");
    assert_eq!(c.get("k"), Some("last"));
}

#[test]
fn unicode_white_space_is_skipped() {
    let c = parse("\u{3000}k\u{a0}: v\u{2003}\n");
    assert_eq!(c.get("k"), Some("v"));
}

#[test]
fn server_example_one_member_per_line() {
    let text = "# comment\nserver {\n  port: 8080\n  hosts [\n    { name: a }\n    { name: b }\n  ]\n}\n";
    let c = Configuration::parse(text);
    assert!(matches!(c, Err(Error::EmptyKey(5))));
    let text = "# comment\nserver {\n  port: 8080\n  hosts [\n    {\n      name: a\n    }\n    {\n      name: b\n    }\n  ]\n}\n";
    let c = parse(text);
    assert_eq!(c.get("server.port"), Some("8080"));
    assert_eq!(c.get("server.hosts.0.name"), Some("a"));
    assert_eq!(c.get("server.hosts.1.name"), Some("b"));
    assert_eq!(c.get("server"), None);
    assert_eq!(c.get("server.hosts"), None);
    assert_eq!(c.get("server.hosts.0"), None);
    assert_eq!(c.get("server.hosts.2.name"), None);
}

#[test]
fn loading_twice_gives_the_same_contents() {
    let text = "a {\n  b: 1\n}\nc: 2\n";
    let first = parse(text);
    let second = parse(text);
    for key in ["a.b", "c", "a", "b"] {
        assert_eq!(first.get(key), second.get(key));
    }
}

#[test]
fn missing_file_is_empty() {
    let c = match Configuration::load(None) {
        Ok(c) => c,
        Err(e) => panic!("unexpected failure: {:?}", e),
    };
    assert_eq!(c.get("anything"), None);
    assert_eq!(c.get(""), None);
}

#[test]
fn load_reads_given_contents() {
    let c = match Configuration::load(Some("a: 1\n")) {
        Ok(c) => c,
        Err(e) => panic!("unexpected failure: {:?}", e),
    };
    assert_eq!(c.get("a"), Some("1"));
}

#[test]
fn empty_input_is_empty() {
    let c = parse("");
    assert_eq!(c.get(""), None);
}

#[test]
fn repeated_option_names_key_and_line() {
    let e = failure("a: 1\nb: 2\na: 3\n");
    assert!(matches!(e, Error::RepeatedOption(ref k, 2) if k == "a"));
}

#[test]
fn repeated_option_inside_containers() {
    let e = failure("x {\n  y: 1\n}\nx {\n  y: 2\n}\n");
    assert!(matches!(e, Error::RepeatedOption(ref k, 4) if k == "x.y"));
}

#[test]
fn same_leaf_in_different_containers_is_allowed() {
    let c = parse("x {\n  y: 1\n}\nz {\n  y: 2\n}\n");
    assert_eq!(c.get("x.y"), Some("1"));
    assert_eq!(c.get("z.y"), Some("2"));
}

#[test]
fn name_followed_by_close_brace() {
    let e = failure("a {\n  b }\n");
    assert!(matches!(e, Error::UnexpectedEndOfContainer(1)));
}

#[test]
fn unterminated_object() {
    let e = failure("a {\n  b: 1\n");
    assert!(matches!(e, Error::UnexpectedEndOfFile));
}

#[test]
fn unterminated_array() {
    let e = failure("a [\n");
    assert!(matches!(e, Error::UnexpectedEndOfFile));
}

#[test]
fn name_without_marker_at_end() {
    let e = failure("dangling");
    assert!(matches!(e, Error::UnexpectedEndOfFile));
}

#[test]
fn comment_inside_name() {
    let e = failure("\nab # c\n");
    assert!(matches!(e, Error::UnexpectedComment(1)));
}

#[test]
fn newline_inside_name() {
    let e = failure("k: v\nbare\n");
    assert!(matches!(e, Error::UnexpectedEndOfLine(1)));
}

#[test]
fn scalar_inside_array() {
    let e = failure("a [\n  x: 1\n]\n");
    assert!(matches!(e, Error::UnexpectedCharacter('x', 1)));
}

#[test]
fn close_brace_inside_array() {
    let e = failure("a [\n}\n");
    assert!(matches!(e, Error::UnexpectedCharacter('}', 1)));
}

#[test]
fn empty_key_before_value() {
    let e = failure("  : v\n");
    assert!(matches!(e, Error::EmptyKey(0)));
}

#[test]
fn empty_key_before_container() {
    let e = failure("{\n}\n");
    assert!(matches!(e, Error::EmptyKey(0)));
}

#[test]
fn first_error_wins() {
    let e = failure("a: 1\na: 2\nb {\n");
    assert!(matches!(e, Error::RepeatedOption(ref k, 1) if k == "a"));
}

#[test]
fn value_runs_to_end_of_line_past_closing_braces() {
    let e = failure("outer{ inner{ leaf: v } }");
    assert!(matches!(e, Error::UnexpectedEndOfFile));
    let e = failure("list[ {a: 1} {b: 2} ]");
    assert!(matches!(e, Error::UnexpectedEndOfFile));
    let c = parse("outer{ inner{ leaf: v } }\n}\n}\n");
    assert_eq!(c.get("outer.inner.leaf"), Some("v } }"));
}

#[test]
fn compact_form_without_white_space() {
    let c = parse("a{b:1\nc[{d:2\n}[{e:3\n}]]}f:4\n");
    assert_eq!(c.get("a.b"), Some("1"));
    assert_eq!(c.get("a.c.0.d"), Some("2"));
    assert_eq!(c.get("a.c.1.0.e"), Some("3"));
    assert_eq!(c.get("f"), Some("4"));
}

#[test]
fn stray_close_at_top_level_is_ignored() {
    let c = parse("}\nk: v\n");
    assert_eq!(c.get("k"), Some("v"));
}

#[test]
fn carriage_returns_are_trimmed() {
    let c = parse("k: v\r\nw {\r\n  x: y\r\n}\r\n");
    assert_eq!(c.get("k"), Some("v"));
    assert_eq!(c.get("w.x"), Some("y"));
}
