use browser::dom::ElementData;
use browser::style::{
    Clear, ComputedStyle, Display, Float, ListStyleType, Position, TextAlign, TextTransform,
    Visibility, WhiteSpace, WordBreak,
};
use browser::values::{
    apply_text_decoration, extract_css_url, has_math_func, is_block_tag, parse_bg_repeat,
    parse_content, parse_font_weight, parse_list_style_type, resolve_content_attr,
    resolve_css_url, resolved_or, split_importance, split_top_commas, strip_func,
    tokenize_paren_aware, transform_functions, unescape_content_string, BgRepeat,
};

fn plain_style() -> ComputedStyle {
    ComputedStyle {
        display: Display::Inline,
        display_none: false,
        display_block: false,
        position: Position::Static,
        visibility: Visibility::Visible,
        white_space: WhiteSpace::Normal,
        text_transform: TextTransform::Identity,
        word_break: WordBreak::Normal,
        float: Float::NoFloat,
        clear: Clear::NoClear,
        text_align: TextAlign::Left,
        underline: false,
        line_through: false,
        overline: false,
    }
}

#[test]
fn block_tags_and_math_functions() {
    assert!(is_block_tag("DIV"));
    assert!(is_block_tag("figcaption"));
    assert!(!is_block_tag("span"));
    assert!(has_math_func("CALC(1px + 2px)"));
    assert!(has_math_func("clamp(1px, 2vw, 3px)"));
    assert!(!has_math_func("calc 1px"));
}

#[test]
fn list_style_and_background_repeat_keywords() {
    assert_eq!(parse_list_style_type(" Square "), Some(ListStyleType::Square));
    assert_eq!(parse_list_style_type("none"), Some(ListStyleType::NoMarker));
    assert_eq!(parse_list_style_type("roman"), None);
    assert_eq!(parse_bg_repeat("no-repeat"), BgRepeat::NoRepeat);
    assert_eq!(parse_bg_repeat(" REPEAT-X"), BgRepeat::RepeatX);
    assert_eq!(parse_bg_repeat("repeat no-repeat"), BgRepeat::RepeatX);
    assert_eq!(parse_bg_repeat("no-repeat   repeat"), BgRepeat::RepeatY);
    assert_eq!(parse_bg_repeat("no-repeat no-repeat"), BgRepeat::NoRepeat);
    assert_eq!(parse_bg_repeat(""), BgRepeat::Repeat);
    assert_eq!(parse_bg_repeat("space"), BgRepeat::Repeat);
}

#[test]
fn importance_is_split_off() {
    assert_eq!(split_importance("red !important"), ("red", true));
    assert_eq!(split_importance("red ! IMPORTANT  "), ("red", true));
    assert_eq!(split_importance("red important"), ("red important", false));
    assert_eq!(split_importance("blue  "), ("blue", false));
}

#[test]
fn font_weights() {
    assert_eq!(parse_font_weight("bold"), Some(true));
    assert_eq!(parse_font_weight(" Lighter"), Some(false));
    assert_eq!(parse_font_weight("600"), Some(true));
    assert_eq!(parse_font_weight("+700"), Some(true));
    assert_eq!(parse_font_weight("599"), Some(false));
    assert_eq!(parse_font_weight("4294967296"), None);
    assert_eq!(parse_font_weight("heavy"), None);
    assert_eq!(parse_font_weight(""), None);
}

#[test]
fn function_bodies_are_stripped() {
    let v = "URL(a.png)";
    let lower = v.to_ascii_lowercase();
    assert_eq!(strip_func(&lower, v, "url"), Some("a.png"));
    assert_eq!(strip_func(&lower, v, "calc"), None);
    let v = "url(a.png";
    assert_eq!(strip_func(v, v, "url"), None);
}

#[test]
fn content_values() {
    assert_eq!(parse_content("none"), None);
    assert_eq!(parse_content(" NORMAL "), None);
    assert_eq!(parse_content("\"a\\\"b\""), Some("a\"b".to_string()));
    assert_eq!(parse_content("'\\2192 x'"), Some("\u{2192}x".to_string()));
    assert_eq!(parse_content("attr(title)"), Some("attr(title)".to_string()));
    assert_eq!(parse_content("counter(x)"), Some(String::new()));
    assert_eq!(unescape_content_string("\\A"), "\n");
    assert_eq!(unescape_content_string("\\D800z"), "z");
    assert_eq!(unescape_content_string("a\\"), "a\\");
}

#[test]
fn content_attr_references_resolve() {
    let el = ElementData {
        tag: "a".into(),
        attrs: vec![("Title".into(), "T".into()), ("data-x".into(), "X".into())],
        namespace: None,
    };
    assert_eq!(resolve_content_attr("attr( data-x )", &el), "X");
    assert_eq!(resolve_content_attr("ATTR(title)", &el), "T");
    assert_eq!(resolve_content_attr("attr(missing)", &el), "");
    assert_eq!(resolve_content_attr("plain", &el), "plain");
}

#[test]
fn text_decoration_words_set_and_clear_flags() {
    let mut s = plain_style();
    apply_text_decoration(&mut s, "UNDERLINE red wavy");
    assert!(s.underline && !s.line_through && !s.overline);
    apply_text_decoration(&mut s, "overline line-through");
    assert!(s.underline && s.line_through && s.overline);
    apply_text_decoration(&mut s, "underline none");
    assert!(!s.underline && !s.line_through && !s.overline);
}

#[test]
fn top_level_comma_and_paren_aware_splitting() {
    assert_eq!(
        split_top_commas(" a , rgb(1,2,3) ,, b "),
        vec!["a".to_string(), "rgb(1,2,3)".to_string(), "b".to_string()]
    );
    assert_eq!(split_top_commas("  "), Vec::<String>::new());
    assert_eq!(
        tokenize_paren_aware(" 1px  rgb(0, 0, 0) inset"),
        vec!["1px".to_string(), "rgb(0, 0, 0)".to_string(), "inset".to_string()]
    );
    assert_eq!(tokenize_paren_aware(""), Vec::<String>::new());
}

#[test]
fn css_urls_are_extracted() {
    assert_eq!(extract_css_url("no-repeat URL( 'a b.png' ) center"), Some("a b.png".to_string()));
    assert_eq!(extract_css_url("url(x.svg)"), Some("x.svg".to_string()));
    assert_eq!(extract_css_url("url()"), None);
    assert_eq!(extract_css_url("url(\"\")"), None);
    assert_eq!(extract_css_url("url(x"), None);
    assert_eq!(extract_css_url("none"), None);
}

#[test]
fn relative_urls_resolve_against_the_sheet() {
    assert_eq!(
        resolve_css_url("../x.png", Some("https://a.com/css/s.css")),
        "https://a.com/x.png"
    );
    assert_eq!(resolve_css_url(" icons/i.svg ", Some("https://a.com/css/")), "https://a.com/css/icons/i.svg");
    assert_eq!(resolve_css_url(" data:image/png;base64,AA ", Some("https://a.com/")), "data:image/png;base64,AA");
    assert_eq!(resolve_css_url("x.png", None), "x.png");
    assert_eq!(resolve_css_url("x.png", Some("not a url")), "x.png");
    assert_eq!(resolved_or(Some("j".to_string()), "f"), "j");
    assert_eq!(resolved_or(None, "f"), "f");
}

#[test]
fn transform_function_lists_split() {
    assert_eq!(
        transform_functions("translate(1px, 2px) ROTATE(calc(1deg + 2deg)),scale(2)"),
        vec![
            ("translate".to_string(), "1px, 2px".to_string()),
            ("rotate".to_string(), "calc(1deg + 2deg)".to_string()),
            ("scale".to_string(), "2".to_string()),
        ]
    );
    assert_eq!(transform_functions("none"), Vec::<(String, String)>::new());
    assert_eq!(transform_functions("(1) f(2"), vec![("f".to_string(), "2".to_string())]);
}
