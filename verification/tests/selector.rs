use browser::dom::{Document, ElementData, NodeData, NodeId};
use browser::selector::{
    attr_cond_matches, is_hex, matches_complex, parse_attr_cond, parse_complex, parse_compound,
    prev_element_sibling, query_selector_all, query_within, read_css_ident, strip_attr_ns,
    unquote_attr_value, AttrMatchOp, Combinator,
};

fn element(tag: &str, attrs: &[(&str, &str)]) -> NodeData {
    NodeData::Element(ElementData {
        tag: tag.into(),
        attrs: attrs.iter().map(|(k, v)| (k.to_string(), v.to_string())).collect(),
        namespace: None,
    })
}

struct Page {
    doc: Document,
    body: NodeId,
    div: NodeId,
    p1: NodeId,
    span: NodeId,
    p2: NodeId,
    p3: NodeId,
}

/// body > div#main.a.b[data-x] > (p.a, "text", span, p) ; body > p.c
fn page() -> Page {
    let mut doc = Document::new();
    let root = doc.root();
    let html = doc.append_element(root, "html");
    let body = doc.append_element(html, "body");
    let div = doc.append_child(
        body,
        element("div", &[("id", "main"), ("class", "a  b"), ("data-x", "Hello World")]),
    );
    let p1 = doc.append_child(div, element("p", &[("class", "a")]));
    doc.append_child(div, NodeData::Text("text".into()));
    let span = doc.append_element(div, "span");
    let p2 = doc.append_element(div, "p");
    let p3 = doc.append_child(body, element("P", &[("class", "c"), ("lang", "en-US")]));
    Page { doc, body, div, p1, span, p2, p3 }
}

#[test]
fn type_class_and_id_selectors() {
    let pg = page();
    assert_eq!(query_selector_all(&pg.doc, "p"), vec![pg.p1, pg.p2, pg.p3]);
    assert_eq!(query_selector_all(&pg.doc, ".a"), vec![pg.div, pg.p1]);
    assert_eq!(query_selector_all(&pg.doc, "#main"), vec![pg.div]);
    assert_eq!(query_selector_all(&pg.doc, "div.a.b"), vec![pg.div]);
    assert_eq!(query_selector_all(&pg.doc, "span, #main"), vec![pg.div, pg.span]);
    assert_eq!(query_selector_all(&pg.doc, ""), Vec::<NodeId>::new());
}

#[test]
fn combinators() {
    let pg = page();
    assert_eq!(query_selector_all(&pg.doc, "div > p"), vec![pg.p1, pg.p2]);
    assert_eq!(query_selector_all(&pg.doc, "body p"), vec![pg.p1, pg.p2, pg.p3]);
    assert_eq!(query_selector_all(&pg.doc, "p + span"), vec![pg.span]);
    assert_eq!(query_selector_all(&pg.doc, "p.a ~ p"), vec![pg.p2]);
    assert_eq!(query_selector_all(&pg.doc, "div + p"), vec![pg.p3]);
    assert_eq!(query_selector_all(&pg.doc, "html > p"), Vec::<NodeId>::new());
}

#[test]
fn attribute_selectors() {
    let pg = page();
    assert_eq!(query_selector_all(&pg.doc, "[data-x]"), vec![pg.div]);
    assert_eq!(query_selector_all(&pg.doc, "[data-x=\"Hello World\"]"), vec![pg.div]);
    assert_eq!(query_selector_all(&pg.doc, "[data-x='hello world' i]"), vec![pg.div]);
    assert_eq!(query_selector_all(&pg.doc, "[data-x='hello world']"), Vec::<NodeId>::new());
    assert_eq!(query_selector_all(&pg.doc, "[data-x~=World]"), vec![pg.div]);
    assert_eq!(query_selector_all(&pg.doc, "[data-x^=Hell]"), vec![pg.div]);
    assert_eq!(query_selector_all(&pg.doc, "[data-x$=rld]"), vec![pg.div]);
    assert_eq!(query_selector_all(&pg.doc, "[data-x*=o W]"), vec![pg.div]);
    assert_eq!(query_selector_all(&pg.doc, "[lang|=en]"), vec![pg.p3]);
    assert_eq!(query_selector_all(&pg.doc, "[DATA-X^='']"), Vec::<NodeId>::new());
}

#[test]
fn scoped_queries_exclude_the_root() {
    let pg = page();
    assert_eq!(query_within(&pg.doc, pg.div, "p"), vec![pg.p1, pg.p2]);
    assert_eq!(query_within(&pg.doc, pg.div, "div"), Vec::<NodeId>::new());
    assert_eq!(query_within(&pg.doc, pg.body, "#main > span"), vec![pg.span]);
}

#[test]
fn previous_element_sibling_skips_text() {
    let pg = page();
    assert_eq!(prev_element_sibling(&pg.doc, pg.span), Some(pg.p1));
    assert_eq!(prev_element_sibling(&pg.doc, pg.p1), None);
    assert_eq!(prev_element_sibling(&pg.doc, pg.p3), Some(pg.div));
}

#[test]
fn attribute_conditions_parse() {
    let c = parse_attr_cond(" svg|HREF ^= 'x' i ").unwrap();
    assert_eq!(c.name, "href");
    assert_eq!(c.op, AttrMatchOp::Prefix);
    assert_eq!(c.value, "x");
    assert!(c.ci);
    let c = parse_attr_cond("disabled").unwrap();
    assert_eq!(c.op, AttrMatchOp::Exists);
    assert_eq!(c.value, "");
    let c = parse_attr_cond("a=\"b\" s").unwrap();
    assert_eq!((c.op, c.value.as_str(), c.ci), (AttrMatchOp::Equals, "b", false));
    assert!(parse_attr_cond("  ").is_none());
    assert!(parse_attr_cond("=x").is_none());
    assert!(parse_attr_cond("~=x").is_none());
}

#[test]
fn attribute_conditions_match() {
    let e = ElementData {
        tag: "a".into(),
        attrs: vec![("Class".into(), "x y".into())],
        namespace: None,
    };
    assert!(attr_cond_matches(&e, &parse_attr_cond("class~=y").unwrap()));
    assert!(!attr_cond_matches(&e, &parse_attr_cond("class~=").unwrap()));
    assert!(!attr_cond_matches(&e, &parse_attr_cond("title").unwrap()));
    assert!(attr_cond_matches(&e, &parse_attr_cond("class|=x y").unwrap()));
}

#[test]
fn namespace_prefixes_and_quotes_are_stripped() {
    assert_eq!(strip_attr_ns("*|href"), "href");
    assert_eq!(strip_attr_ns("|href"), "href");
    assert_eq!(strip_attr_ns("xlink|href"), "href");
    assert_eq!(strip_attr_ns("href"), "href");
    let v: Vec<char> = "  'abc' ".chars().collect();
    assert_eq!(unquote_attr_value(&v), "abc");
    let v: Vec<char> = "'abc\"".chars().collect();
    assert_eq!(unquote_attr_value(&v), "'abc\"");
    let v: Vec<char> = "'".chars().collect();
    assert_eq!(unquote_attr_value(&v), "'");
}

#[test]
fn identifiers_unescape() {
    let s: Vec<char> = "foo.bar".chars().collect();
    assert_eq!(read_css_ident(&s, 0), ("foo".to_string(), 3));
    let s: Vec<char> = "#\\31 23 x".chars().collect();
    assert_eq!(read_css_ident(&s, 1), ("123".to_string(), 7));
    let s: Vec<char> = "a\\.b c".chars().collect();
    assert_eq!(read_css_ident(&s, 0), ("a.b".to_string(), 4));
    let s: Vec<char> = "\\0 \\D800".chars().collect();
    assert_eq!(read_css_ident(&s, 0), ("\u{FFFD}\u{FFFD}".to_string(), 8));
    assert!(is_hex('F') && is_hex('0') && !is_hex('g'));
}

#[test]
fn compounds_and_chains_parse() {
    let c = parse_compound("div#x.y[z]:hover").unwrap();
    assert_eq!(c.tag.as_deref(), Some("div"));
    assert_eq!(c.id.as_deref(), Some("x"));
    assert_eq!(c.classes, vec!["y".to_string()]);
    assert_eq!(c.attrs.len(), 1);
    assert!(parse_compound("   ").is_none());
    assert!(parse_compound(".").is_none());
    let c = parse_compound("*|body").unwrap();
    assert_eq!(c.tag.as_deref(), Some("body"));

    let chain = parse_complex("ul > li + li ~ a b").unwrap();
    let combs: Vec<Combinator> = chain.iter().map(|(c, _)| *c).collect();
    assert_eq!(
        combs,
        vec![
            Combinator::Descendant,
            Combinator::Child,
            Combinator::NextSibling,
            Combinator::SubsequentSibling,
            Combinator::Descendant
        ]
    );
    assert!(parse_complex(" > ").is_none());

    let pg = page();
    let chain = parse_complex("body div p").unwrap();
    assert!(matches_complex(&pg.doc, pg.p1, &chain));
    assert!(!matches_complex(&pg.doc, pg.p3, &chain));
    assert!(pg.doc.get(pg.div).children.len() == 4);
}

#[test]
fn a_query_scoped_to_the_document_root_matches_the_whole_document_query() {
    let pg = page();
    let root = pg.doc.root();
    for sel in ["p", ".a, span", "body > p", "[data-x]", "nothing-here", ""] {
        assert_eq!(query_within(&pg.doc, root, sel), query_selector_all(&pg.doc, sel));
    }
}

#[test]
fn an_escaped_digit_stays_inside_its_compound() {
    let mut doc = Document::new();
    let root = doc.root();
    let a = doc.append_child(root, element("div", &[("id", "0foo")]));
    doc.append_child(a, element("span", &[("class", "x y")]));
    assert_eq!(query_selector_all(&doc, "#\\30 foo"), vec![a]);
    assert_eq!(query_selector_all(&doc, "div#\\30 foo > .x"), vec![NodeId(2)]);
}

#[test]
fn combinators_follow_a_node_moved_under_a_newer_parent() {
    let mut doc = Document::new();
    let root = doc.root();
    let p = doc.append_element(root, "p");
    let section = doc.append_element(root, "section");
    doc.get_mut(root).children.retain(|c| *c != p);
    doc.get_mut(section).children.push(p);
    doc.get_mut(p).parent = Some(section);
    assert!(p.0 < section.0);
    assert_eq!(query_selector_all(&doc, "section > p"), vec![p]);
    assert_eq!(query_selector_all(&doc, "section p"), vec![p]);
    assert_eq!(query_selector_all(&doc, "p"), vec![p]);
}
