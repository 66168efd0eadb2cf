use browser::serialize::{
    is_css_ident_word, is_reserved_font_family_word, join_chars, justify_content_str,
    serialize_css_string, serialize_font_family, split_on_char, split_top_level_commas,
    unescape_css_string,
};
use browser::style::JustifyContent;

fn family(s: &str) -> Option<String> {
    serialize_font_family(s)
}

#[test]
fn unquoted_families_collapse_their_whitespace() {
    assert_eq!(family("Arial").as_deref(), Some("Arial"));
    assert_eq!(family("  Times   New  Roman , serif").as_deref(), Some("Times New Roman, serif"));
    assert_eq!(family("a,,b").as_deref(), Some("a, b"));
    assert_eq!(family("").as_deref(), Some(""));
}

#[test]
fn quoted_families_unquote_only_when_safe() {
    assert_eq!(family("'Open Sans'").as_deref(), Some("Open Sans"));
    assert_eq!(family("\"a b1\"").as_deref(), Some("a b1"));
    assert_eq!(family("\"serif\"").as_deref(), Some("\"serif\""));
    assert_eq!(family("'Inherit'").as_deref(), Some("\"Inherit\""));
    assert_eq!(family("'1abc'").as_deref(), Some("\"1abc\""));
    assert_eq!(family("'a  b'").as_deref(), Some("\"a  b\""));
    assert_eq!(family("'\\\"x'").as_deref(), Some("\"\\\"x\""));
    assert_eq!(family("'\\41 b'").as_deref(), Some("Ab"));
}

#[test]
fn malformed_family_lists_are_rejected() {
    assert_eq!(family("\"times\" new roman"), None);
    assert_eq!(family("\"unterminated"), None);
    assert_eq!(family("a, 'b"), None);
}

#[test]
fn a_quoted_comma_or_escaped_quote_survives_re_serialization() {
    let once = family("'a\", b'").unwrap();
    assert_eq!(once, "\"a\\\", b\"");
    assert_eq!(family(&once).as_deref(), Some(once.as_str()));
    let once = family("'\\\"x', serif").unwrap();
    assert_eq!(once, "\"\\\"x\", serif");
    assert_eq!(family(&once).as_deref(), Some(once.as_str()));
}

#[test]
fn family_serialization_is_stable_on_its_own_output() {
    for input in [
        "Arial",
        "'Open Sans', serif",
        "\"serif\"",
        "'\\\"x'",
        "'1abc'",
        "a\"b, c",
        "f(a, b), 'x\\'y'",
        "  Times   New  Roman , serif",
    ] {
        let once = family(input).unwrap();
        assert_eq!(family(&once).as_deref(), Some(once.as_str()));
    }
}

#[test]
fn css_string_escapes_decode() {
    let chars: Vec<char> = "\\41 b\\0\\x\\".chars().collect();
    assert_eq!(unescape_css_string(&chars), "Ab\u{FFFD}x\\");
    let chars: Vec<char> = "\\110000".chars().collect();
    assert_eq!(unescape_css_string(&chars), "\u{FFFD}");
    let chars: Vec<char> = "\\10FFFF7".chars().collect();
    assert_eq!(unescape_css_string(&chars), "\u{10FFFF}7");
}

#[test]
fn css_strings_are_quoted_and_escaped() {
    assert_eq!(serialize_css_string("a\"b\\c"), "\"a\\\"b\\\\c\"");
    assert_eq!(serialize_css_string(""), "\"\"");
}

#[test]
fn commas_split_only_at_the_top_level() {
    assert_eq!(split_top_level_commas("a(b,c),'d,e',f"), vec!["a(b,c)", "'d,e'", "f"]);
    assert_eq!(split_top_level_commas(""), vec![""]);
    assert_eq!(split_top_level_commas("x),y"), vec!["x)", "y"]);
    assert_eq!(split_top_level_commas("\"a\\\",b\",c"), vec!["\"a\\\",b\"", "c"]);
}

#[test]
fn family_words_are_classified() {
    assert!(is_reserved_font_family_word("Serif"));
    assert!(is_reserved_font_family_word("revert-layer"));
    assert!(!is_reserved_font_family_word("Arial"));
    assert!(is_css_ident_word("-a_1"));
    assert!(is_css_ident_word("_x"));
    assert!(!is_css_ident_word("-"));
    assert!(!is_css_ident_word("--x"));
    assert!(!is_css_ident_word(""));
    assert!(!is_css_ident_word("a.b"));
}

#[test]
fn joining_and_splitting_chars() {
    let parts = vec![vec!['a'], vec![], vec!['b', 'c']];
    assert_eq!(join_chars(&parts, ", "), vec!['a', ',', ' ', ',', ' ', 'b', 'c']);
    let v: Vec<char> = "a b  c".chars().collect();
    assert_eq!(split_on_char(&v, ' '), vec![vec!['a'], vec!['b'], vec![], vec!['c']]);
}

#[test]
fn justify_content_keywords() {
    assert_eq!(justify_content_str(JustifyContent::FlexStart), "flex-start");
    assert_eq!(justify_content_str(JustifyContent::SpaceEvenly), "space-evenly");
    assert_eq!(justify_content_str(JustifyContent::Center), "center");
}
