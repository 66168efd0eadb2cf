use browser::dom::{Document, DocumentType, ElementData, NodeData, NodeId, ProcessingInstruction};
use browser::dom_helpers::{
    collect_by_class, collect_by_tag, copy_children_into, detach_children, find_by_id, find_by_tag, inner_html,
    is_void, push_descendant_text, set_text_content, text_content,
};

fn element(tag: &str, attrs: &[(&str, &str)]) -> NodeData {
    NodeData::Element(ElementData {
        tag: tag.into(),
        attrs: attrs.iter().map(|(k, v)| (k.to_string(), v.to_string())).collect(),
        namespace: None,
    })
}

/// div#d.x > ("a<b", comment, span.x.y > "c", br, "&") ; doc > pi
fn page() -> (Document, NodeId, NodeId, NodeId, NodeId) {
    let mut doc = Document::new();
    let root = doc.root();
    let div = doc.append_child(root, element("div", &[("id", "d"), ("class", "x"), ("title", "q\"&")]));
    doc.append_child(div, NodeData::Text("a<b".into()));
    doc.append_child(div, NodeData::Comment("note".into()));
    let span = doc.append_child(div, element("SPAN", &[("class", " y  x ")]));
    doc.append_child(span, NodeData::Text("c".into()));
    let br = doc.append_element(div, "br");
    doc.append_child(br, NodeData::Text("hidden".into()));
    doc.append_child(div, NodeData::Cdata("&".into()));
    (doc, root, div, span, br)
}

#[test]
fn text_content_concatenates_descendant_text() {
    let (doc, root, div, span, _) = page();
    assert_eq!(text_content(&doc, div), "a<bchidden&");
    assert_eq!(text_content(&doc, root), "a<bchidden&");
    let comment = doc.get(div).children[1];
    assert_eq!(text_content(&doc, comment), "note");
    let mut out = String::from(">");
    push_descendant_text(&doc, span, &mut out);
    assert_eq!(out, ">c");
}

#[test]
fn inner_html_serializes_children() {
    let (doc, root, div, _, _) = page();
    assert_eq!(
        inner_html(&doc, div),
        "a&lt;b<!--note--><SPAN class=\" y  x \">c</SPAN><br><![CDATA[&]]>"
    );
    assert_eq!(
        inner_html(&doc, root),
        "<div id=\"d\" class=\"x\" title=\"q&quot;&amp;\">a&lt;b<!--note--><SPAN class=\" y  x \">c</SPAN><br><![CDATA[&]]></div>"
    );
}

#[test]
fn inner_html_of_other_node_kinds() {
    let mut doc = Document::new();
    let root = doc.root();
    doc.append_child(root, NodeData::DocumentType(DocumentType { name: "html".into() }));
    doc.append_child(
        root,
        NodeData::ProcessingInstruction(ProcessingInstruction { target: "xml".into(), data: "v=1".into() }),
    );
    let frag = doc.append_child(root, NodeData::DocumentFragment);
    doc.append_child(frag, NodeData::Text("t>".into()));
    assert_eq!(inner_html(&doc, root), "<!DOCTYPE html><?xml v=1>t&gt;");
}

#[test]
fn set_text_content_replaces_children_or_data() {
    let (mut doc, _, div, span, _) = page();
    let text = doc.get(span).children[0];
    set_text_content(&mut doc, text, "new");
    assert_eq!(text_content(&doc, span), "new");
    let old = doc.get(div).children.clone();
    set_text_content(&mut doc, div, "only");
    assert_eq!(doc.get(div).children.len(), 1);
    assert_eq!(text_content(&doc, div), "only");
    assert!(old.iter().all(|&c| doc.get(c).parent.is_none()));
    set_text_content(&mut doc, div, "");
    assert!(doc.get(div).children.is_empty());
}

#[test]
fn detaching_children_clears_both_links() {
    let (mut doc, _, div, span, _) = page();
    detach_children(&mut doc, div);
    assert!(doc.get(div).children.is_empty());
    assert_eq!(doc.get(span).parent, None);
    assert_eq!(doc.get(doc.get(span).children[0]).parent, Some(span));
}

#[test]
fn tree_searches_are_depth_first() {
    let (doc, root, div, span, br) = page();
    assert_eq!(find_by_tag(&doc, root, "span"), Some(span));
    assert_eq!(find_by_tag(&doc, root, "DIV"), Some(div));
    assert_eq!(find_by_tag(&doc, span, "div"), None);
    assert_eq!(find_by_id(&doc, root, "d"), Some(div));
    assert_eq!(find_by_id(&doc, root, "D"), None);
    let mut out = vec![root];
    collect_by_tag(&doc, root, "BR", &mut out);
    assert_eq!(out, vec![root, br]);
    let mut out = Vec::new();
    collect_by_class(&doc, root, &vec!["x".to_string()], &mut out);
    assert_eq!(out, vec![div, span]);
    let mut out = Vec::new();
    collect_by_class(&doc, root, &vec!["x".to_string(), "y".to_string()], &mut out);
    assert_eq!(out, vec![span]);
    let mut out = Vec::new();
    collect_by_class(&doc, root, &vec![], &mut out);
    assert!(out.is_empty());
}

#[test]
fn void_tags() {
    assert!(is_void("BR"));
    assert!(is_void("wbr"));
    assert!(!is_void("div"));
}

#[test]
fn copying_a_fragment_flattens_html_head_and_body() {
    let mut frag = Document::new();
    let froot = frag.root();
    let html = frag.append_element(froot, "html");
    let head = frag.append_element(html, "head");
    let title = frag.append_element(head, "title");
    frag.append_child(title, NodeData::Text("t".into()));
    let body = frag.append_element(html, "body");
    let p = frag.append_child(body, element("p", &[("class", "k")]));
    frag.append_child(p, NodeData::Text("x".into()));
    frag.append_element(body, "BODY");

    let (mut doc, _, div, _, _) = page();
    let before = doc.len();
    let old_kids = doc.get(div).children.len();
    copy_children_into(&mut doc, div, &frag, froot);
    assert_eq!(doc.len(), before + 5);
    let new_kids: Vec<NodeId> = doc.get(div).children[old_kids..].to_vec();
    assert_eq!(new_kids.len(), 3);
    assert_eq!(inner_html(&doc, new_kids[0]), "t");
    assert_eq!(inner_html(&doc, new_kids[1]), "x");
    let mut html_out = String::new();
    for &k in &new_kids {
        html_out.push_str(&text_content(&doc, k));
        assert_eq!(doc.get(k).parent, Some(div));
    }
    assert_eq!(html_out, "tx");
    let tail = inner_html(&doc, div);
    assert!(tail.ends_with("<title>t</title><p class=\"k\">x</p><BODY></BODY>"));
}

/// A node moved under a node created after it (so the child's id is smaller than its parent's)
/// is walked like any other child.
fn moved_page() -> (Document, NodeId, NodeId, NodeId) {
    let mut doc = Document::new();
    let root = doc.root();
    let p = doc.append_element(root, "p");
    doc.append_child(p, NodeData::Text("x".into()));
    let section = doc.append_element(root, "section");
    doc.get_mut(root).children.retain(|c| *c != p);
    doc.get_mut(section).children.push(p);
    doc.get_mut(p).parent = Some(section);
    (doc, root, section, p)
}

#[test]
fn a_node_moved_under_a_newer_node_is_still_serialized_and_found() {
    let (doc, root, section, p) = moved_page();
    assert!(p.0 < section.0);
    assert_eq!(inner_html(&doc, section), "<p>x</p>");
    assert_eq!(inner_html(&doc, root), "<section><p>x</p></section>");
    assert_eq!(text_content(&doc, root), "x");
    assert_eq!(find_by_tag(&doc, root, "p"), Some(p));
    let mut out = Vec::new();
    collect_by_tag(&doc, section, "p", &mut out);
    assert_eq!(out, vec![p]);
}
