use confparse::text::{push_decimal, push_range, space, trim_bounds};

#[test]
fn white_space_class() {
    for c in [' ', '\t', '\n', '\r', '\u{b}', '\u{c}', '\u{85}', '\u{a0}', '\u{1680}', '\u{2000}', '\u{200a}', '\u{2028}', '\u{2029}', '\u{202f}', '\u{205f}', '\u{3000}'] {
        assert!(space(c), "{:?}", c);
        assert!(c.is_whitespace());
    }
    for c in ['a', '#', '{', '\u{200b}', '\u{1f}', '0', '\u{feff}'] {
        assert!(!space(c), "{:?}", c);
        assert!(!c.is_whitespace());
    }
}

#[test]
fn trim_bounds_skip_white_space_at_both_ends() {
    let s: Vec<char> = "  ab c \t".chars().collect();
    assert_eq!(trim_bounds(&s, 0, s.len()), (2, 6));
    assert_eq!(trim_bounds(&s, 3, 5), (3, 4));
    assert_eq!(trim_bounds(&s, 4, 5), (5, 5));
    let blank: Vec<char> = "   ".chars().collect();
    assert_eq!(trim_bounds(&blank, 0, 3), (3, 3));
    assert_eq!(trim_bounds(&blank, 1, 1), (1, 1));
}

#[test]
fn push_range_appends_the_slice() {
    let s: Vec<char> = "hello world".chars().collect();
    let mut out = String::from(">");
    push_range(&mut out, &s, 6, 11);
    assert_eq!(out, ">world");
    push_range(&mut out, &s, 3, 3);
    assert_eq!(out, ">world");
}

#[test]
fn decimal_numerals() {
    let mut out = String::new();
    push_decimal(&mut out, 0);
    assert_eq!(out, "0");
    let mut out = String::from("k.");
    push_decimal(&mut out, 907);
    assert_eq!(out, "k.907");
    let mut out = String::new();
    push_decimal(&mut out, usize::MAX);
    assert_eq!(out, usize::MAX.to_string());
    let mut out = String::new();
    push_decimal(&mut out, 10);
    assert_eq!(out, "10");
}
