use browser::dom::NodeData;
use browser::inner_text::rendered_text_fragment;

fn frag_tags(input: &str) -> Vec<String> {
    rendered_text_fragment(input)
        .iter()
        .map(|nd| match nd {
            NodeData::Text(t) => format!("text:{t}"),
            NodeData::Element(e) => format!("<{}>", e.tag),
            _ => "?".to_string(),
        })
        .collect()
}

#[test]
fn fragment_splits_on_line_breaks() {
    assert_eq!(frag_tags("abc"), vec!["text:abc"]);
    assert_eq!(frag_tags("abc\ndef"), vec!["text:abc", "<br>", "text:def"]);
    assert_eq!(frag_tags("abc\r\ndef"), vec!["text:abc", "<br>", "text:def"]);
    assert_eq!(frag_tags("abc\n\ndef"), vec!["text:abc", "<br>", "<br>", "text:def"]);
    assert_eq!(frag_tags("\nabc"), vec!["<br>", "text:abc"]);
    assert_eq!(frag_tags("abc\n"), vec!["text:abc", "<br>"]);
    assert_eq!(frag_tags(""), Vec::<String>::new());
    assert_eq!(frag_tags("abc  def"), vec!["text:abc  def"]);
}

use browser::dom::{Document, NodeId};
use browser::dom_helpers::text_content;
use browser::inner_text::{inner_text, is_html_element, set_inner_text, set_outer_text};
use browser::style::{
    Clear, ComputedStyle, Display, Float, Position, TextAlign, TextTransform, Visibility,
    WhiteSpace, WordBreak,
};
use std::collections::HashMap;

fn style(display: Display) -> ComputedStyle {
    ComputedStyle {
        display,
        display_none: false,
        display_block: false,
        position: Position::Static,
        visibility: Visibility::Visible,
        white_space: WhiteSpace::Normal,
        text_transform: TextTransform::Identity,
        word_break: WordBreak::Normal,
        float: Float::NoFloat,
        clear: Clear::NoClear,
        text_align: TextAlign::Left,
        underline: false,
        line_through: false,
        overline: false,
    }
}

/// body > (p > "Hello   world") (div > "Bye"), with block styles on all three elements.
fn page() -> (Document, HashMap<usize, ComputedStyle>, NodeId, NodeId, NodeId) {
    let mut doc = Document::new();
    let root = doc.root();
    let body = doc.append_element(root, "body");
    let p = doc.append_element(body, "p");
    doc.append_child(p, NodeData::Text("Hello   world".into()));
    let div = doc.append_element(body, "div");
    doc.append_child(div, NodeData::Text("Bye".into()));
    let mut styles = HashMap::new();
    styles.insert(body.0, style(Display::Block));
    styles.insert(p.0, style(Display::Block));
    styles.insert(div.0, style(Display::Block));
    (doc, styles, body, p, div)
}

fn text_of(doc: &Document, id: NodeId) -> String {
    match &doc.get(id).data {
        NodeData::Text(t) => format!("text:{t}"),
        NodeData::Element(e) => format!("<{}>", e.tag),
        _ => "?".to_string(),
    }
}

#[test]
fn paragraphs_are_separated_by_a_blank_line_and_spaces_collapse() {
    let (doc, styles, body, p, _) = page();
    assert_eq!(inner_text(&doc, &styles, body), "Hello world\n\nBye");
    assert_eq!(inner_text(&doc, &styles, p), "Hello world");
}

#[test]
fn a_display_none_element_reads_its_text_verbatim() {
    let (doc, mut styles, body, _, _) = page();
    let mut hidden = style(Display::Block);
    hidden.display_none = true;
    styles.insert(body.0, hidden);
    assert_eq!(inner_text(&doc, &styles, body), "Hello   worldBye");
    assert_eq!(inner_text(&doc, &styles, body), text_content(&doc, body));
    // A detached element is not being rendered either.
    let (mut doc, styles, body, p, _) = page();
    browser::dom_helpers::detach_children(&mut doc, body);
    assert_eq!(inner_text(&doc, &styles, p), "Hello   world");
    assert_eq!(inner_text(&doc, &styles, p), text_content(&doc, p));
}

#[test]
fn br_and_text_transform_show_in_the_rendered_text() {
    let mut doc = Document::new();
    let root = doc.root();
    let div = doc.append_element(root, "div");
    doc.append_child(div, NodeData::Text("ab".into()));
    doc.append_element(div, "br");
    doc.append_child(div, NodeData::Text("cd".into()));
    let mut styles = HashMap::new();
    let mut upper = style(Display::Block);
    upper.text_transform = TextTransform::Uppercase;
    styles.insert(div.0, upper);
    assert_eq!(inner_text(&doc, &styles, div), "AB\nCD");
}

#[test]
fn inner_text_setter_replaces_the_children() {
    let (mut doc, _, _, p, _) = page();
    let old = doc.get(p).children.clone();
    set_inner_text(&mut doc, p, "x\ny");
    let kids: Vec<String> = doc.get(p).children.iter().map(|&c| text_of(&doc, c)).collect();
    assert_eq!(kids, vec!["text:x", "<br>", "text:y"]);
    assert_eq!(doc.get(old[0]).parent, None);
    set_inner_text(&mut doc, p, "");
    assert!(doc.get(p).children.is_empty());
}

#[test]
fn outer_text_setter_merges_with_adjacent_text() {
    let mut doc = Document::new();
    let root = doc.root();
    let div = doc.append_element(root, "div");
    let a = doc.append_child(div, NodeData::Text("a".into()));
    let span = doc.append_element(div, "span");
    doc.append_child(div, NodeData::Text("b".into()));
    assert!(set_outer_text(&mut doc, span, "X"));
    assert_eq!(doc.get(div).children, vec![a]);
    assert_eq!(text_of(&doc, a), "text:aXb");
    assert_eq!(doc.get(span).parent, None);
    // A node without a parent cannot be replaced.
    let before = doc.len();
    assert!(!set_outer_text(&mut doc, span, "Y"));
    assert_eq!(doc.len(), before);
}

#[test]
fn outer_text_with_a_line_break_keeps_the_br() {
    let mut doc = Document::new();
    let root = doc.root();
    let div = doc.append_element(root, "div");
    let span = doc.append_element(div, "span");
    assert!(set_outer_text(&mut doc, span, "1\n2"));
    let kids: Vec<String> = doc.get(div).children.iter().map(|&c| text_of(&doc, c)).collect();
    assert_eq!(kids, vec!["text:1", "<br>", "text:2"]);
}

#[test]
fn only_html_namespace_elements_are_html_elements() {
    let mut doc = Document::new();
    let root = doc.root();
    let div = doc.append_element(root, "div");
    let svg = doc.append_child(
        root,
        NodeData::Element(browser::dom::ElementData {
            tag: "svg".into(),
            attrs: vec![],
            namespace: Some("http://www.w3.org/2000/svg".into()),
        }),
    );
    let xhtml = doc.append_child(
        root,
        NodeData::Element(browser::dom::ElementData {
            tag: "b".into(),
            attrs: vec![],
            namespace: Some("http://www.w3.org/1999/xhtml".into()),
        }),
    );
    assert!(is_html_element(&doc, div));
    assert!(!is_html_element(&doc, svg));
    assert!(is_html_element(&doc, xhtml));
    assert!(!is_html_element(&doc, root));
}

fn el(doc: &mut Document, parent: NodeId, tag: &str, attrs: &[(&str, &str)]) -> NodeId {
    doc.append_child(
        parent,
        NodeData::Element(browser::dom::ElementData {
            tag: tag.into(),
            attrs: attrs.iter().map(|(k, v)| (k.to_string(), v.to_string())).collect(),
            namespace: None,
        }),
    )
}

#[test]
fn table_cells_are_tab_separated_and_rows_line_separated() {
    let mut doc = Document::new();
    let root = doc.root();
    let table = el(&mut doc, root, "table", &[]);
    let tr1 = el(&mut doc, table, "tr", &[]);
    doc.append_child(table, NodeData::Text("  \n  ".into()));
    let tr2 = el(&mut doc, table, "tr", &[]);
    let mut styles = HashMap::new();
    styles.insert(table.0, style(Display::Table));
    for (tr, texts) in [(tr1, ["a", "b"]), (tr2, ["c", "d"])] {
        styles.insert(tr.0, style(Display::TableRow));
        for t in texts {
            let td = el(&mut doc, tr, "td", &[]);
            styles.insert(td.0, style(Display::TableCell));
            doc.append_child(td, NodeData::Text(t.into()));
        }
    }
    assert_eq!(inner_text(&doc, &styles, table), "a\tb\nc\td");
}

#[test]
fn a_closed_details_element_shows_only_its_summary() {
    let mut doc = Document::new();
    let root = doc.root();
    let details = el(&mut doc, root, "details", &[]);
    let summary = el(&mut doc, details, "summary", &[]);
    doc.append_child(summary, NodeData::Text("S".into()));
    let p = el(&mut doc, details, "p", &[]);
    doc.append_child(p, NodeData::Text("P".into()));
    let mut styles = HashMap::new();
    for id in [details, summary, p] {
        styles.insert(id.0, style(Display::Block));
    }
    assert_eq!(inner_text(&doc, &styles, details), "S");

    let mut doc2 = Document::new();
    let root = doc2.root();
    let details = el(&mut doc2, root, "details", &[("open", "")]);
    let summary = el(&mut doc2, details, "summary", &[]);
    doc2.append_child(summary, NodeData::Text("S".into()));
    let p = el(&mut doc2, details, "p", &[]);
    doc2.append_child(p, NodeData::Text("P".into()));
    assert_eq!(inner_text(&doc2, &styles, details), "S\n\nP");
}

#[test]
fn select_options_render_one_per_line() {
    let mut doc = Document::new();
    let root = doc.root();
    let select = el(&mut doc, root, "select", &[]);
    for t in ["x", "y"] {
        let o = el(&mut doc, select, "option", &[]);
        doc.append_child(o, NodeData::Text(t.into()));
    }
    doc.append_child(select, NodeData::Text("ignored".into()));
    let styles = HashMap::new();
    assert_eq!(inner_text(&doc, &styles, select), "x\ny");
}

#[test]
fn inner_text_renders_a_node_moved_under_a_newer_parent() {
    let (mut doc, mut styles, body, p, _) = page();
    let root = doc.root();
    // A new wrapper created after `p`, with `p` moved into it.
    let wrap = doc.append_element(body, "section");
    styles.insert(wrap.0, style(Display::Block));
    doc.get_mut(body).children.retain(|c| *c != p);
    doc.get_mut(wrap).children.push(p);
    doc.get_mut(p).parent = Some(wrap);
    assert!(p.0 < wrap.0);
    assert_eq!(inner_text(&doc, &styles, body), "Bye\n\nHello world");
    // `p` is still connected through its newer parent, so it is rendered.
    assert_eq!(inner_text(&doc, &styles, p), "Hello world");
    assert_eq!(text_content(&doc, root), "ByeHello   world");
}
