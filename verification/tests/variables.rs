use browser::text_helpers::collapse_whitespace;
use browser::variables::{resolve_one_var, resolve_vars, resolve_vars_depth, split_first_comma};

fn vars(pairs: &[(&str, &str)]) -> Vec<(String, String)> {
    pairs.iter().map(|(k, v)| (k.to_string(), v.to_string())).collect()
}

#[test]
fn variables_resolve_with_fallbacks() {
    let v = vars(&[("--a", "red"), ("--b", "var(--a)"), ("--pad", "1px 2px")]);
    assert_eq!(resolve_vars("color: var(--a)", &v), "color: red");
    assert_eq!(resolve_vars("var(--b) var( --pad )", &v), "red 1px 2px");
    assert_eq!(resolve_vars("var(--missing, blue)", &v), "blue");
    assert_eq!(resolve_vars("var(--missing, var(--a))", &v), "red");
    assert_eq!(resolve_vars("var(--missing)x", &v), "x");
    assert_eq!(resolve_vars("calc(var(--x, 1px) + 2px)", &v), "calc(1px + 2px)");
    assert_eq!(resolve_vars("no vars here", &v), "no vars here");
}

#[test]
fn cyclic_variables_stop_at_the_depth_cap() {
    let v = vars(&[("--a", "var(--a)")]);
    assert_eq!(resolve_vars("var(--a)", &v), "var(--a)");
    let v = vars(&[("--a", "x")]);
    assert_eq!(resolve_vars_depth("var(--a)", &v, 32), "var(--a)");
    assert_eq!(resolve_vars_depth("var(--a)", &v, 31), "x");
}

#[test]
fn an_unclosed_var_takes_the_rest_of_the_value() {
    let v = vars(&[("--a", "red")]);
    assert_eq!(resolve_vars("1 var(--a", &v), "1 red");
}

#[test]
fn single_var_arguments() {
    let v = vars(&[("--a", "red")]);
    assert_eq!(resolve_one_var(" --a , blue", &v, 0), "red");
    assert_eq!(resolve_one_var("--b, f(1, 2)", &v, 0), "f(1, 2)");
    assert_eq!(resolve_one_var("--b", &v, 0), "");
}

#[test]
fn first_top_level_comma() {
    assert_eq!(split_first_comma("a, b, c"), ("a", Some(" b, c")));
    assert_eq!(split_first_comma("f(a, b), c"), ("f(a, b)", Some(" c")));
    assert_eq!(split_first_comma("abc"), ("abc", None));
    assert_eq!(split_first_comma(")a,b"), (")a,b", None));
}

#[test]
fn whitespace_collapses_but_line_breaks_stay() {
    assert_eq!(collapse_whitespace("  a   b \n\n  c  \n"), "a b\nc");
    assert_eq!(collapse_whitespace("\n\nx"), "x");
    assert_eq!(collapse_whitespace("a\t\tb"), "a b");
    assert_eq!(collapse_whitespace("  a \t b \n\n  c  "), "a b\nc");
    assert_eq!(collapse_whitespace(""), "");
}

use browser::dom::{Document, NodeData};
use browser::text_helpers::collect_text;

#[test]
fn visible_text_skips_hidden_subtrees_and_breaks_around_blocks() {
    let mut doc = Document::new();
    let root = doc.root();
    let html = doc.append_element(root, "html");
    let head = doc.append_element(html, "head");
    let title = doc.append_element(head, "title");
    doc.append_child(title, NodeData::Text("T".into()));
    let body = doc.append_element(html, "body");
    let p = doc.append_element(body, "p");
    doc.append_child(p, NodeData::Text(" a ".into()));
    doc.append_child(body, NodeData::Text("b".into()));
    let script = doc.append_element(body, "script");
    doc.append_child(script, NodeData::Text("x()".into()));
    doc.append_child(body, NodeData::Comment("c".into()));
    doc.append_child(body, NodeData::Cdata("d".into()));
    let skip = vec!["script".to_string(), "head".to_string()];
    let block = vec!["p".to_string(), "div".to_string()];
    let mut out = String::from(">");
    collect_text(&doc, root, &mut out, &skip, &block);
    assert_eq!(out, ">\n a \nbd");
    assert_eq!(collapse_whitespace(&out[1..]), "a\nbd");
    let mut out = String::new();
    collect_text(&doc, script, &mut out, &vec![], &block);
    assert_eq!(out, "x()");
}

#[test]
fn past_the_depth_cap_a_reference_takes_the_value_as_written() {
    let v = vars(&[("--a", "var(--b)"), ("--b", "x")]);
    assert_eq!(resolve_one_var("--a", &v, 40), "var(--b)");
    assert_eq!(resolve_one_var("--zz, var(--b) ", &v, 32), "var(--b)");
    assert_eq!(resolve_one_var("--a", &v, 30), "x");
    assert_eq!(resolve_one_var("--a", &v, usize::MAX), "var(--b)");
}
