use browser::dom::{Document, NodeData};

#[test]
fn builds_a_small_tree() {
    let mut doc = Document::new();
    let root = doc.root();
    let html = doc.append_element(root, "html");
    let body = doc.append_element(html, "body");
    doc.append_child(body, NodeData::Text("hi".into()));

    assert_eq!(doc.get(root).children, vec![html]);
    assert_eq!(doc.get(html).children, vec![body]);
    assert_eq!(doc.get(body).children.len(), 1);
    assert_eq!(doc.get(body).parent, Some(html));
}

use browser::dom::ElementData;

#[test]
fn element_id_and_classes_read_their_attributes() {
    let e = ElementData {
        tag: "div".into(),
        attrs: vec![("class".into(), "  a b\tc ".into()), ("id".into(), "x".into())],
        namespace: None,
    };
    assert_eq!(e.id(), Some("x"));
    assert_eq!(e.classes(), vec!["a".to_string(), "b".to_string(), "c".to_string()]);
    let bare = ElementData { tag: "p".into(), attrs: vec![], namespace: None };
    assert_eq!(bare.id(), None);
    assert!(bare.classes().is_empty());
}

#[test]
fn a_new_document_holds_only_its_root() {
    let mut doc = Document::new();
    assert_eq!(doc.len(), 1);
    assert!(!doc.is_empty());
    assert!(matches!(doc.get(doc.root()).data, NodeData::Document));
    let id = doc.alloc_node(NodeData::Text("t".into()), None);
    assert_eq!(id.0, 1);
    assert_eq!(doc.get(id).parent, None);
    assert!(doc.get(doc.root()).children.is_empty());
    let root = doc.root();
    doc.get_mut(id).parent = Some(root);
    assert_eq!(doc.get(id).parent, Some(root));
}
