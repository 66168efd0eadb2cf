use browser::dom::NodeId;
use browser::dom::{Document, ElementData, NodeData};
use browser::layout::{
    capture_table_spans, col_span_attr, table_span, clear_of, collect_group_rows, collect_table_rows, display_of, extract_cells, float_of,
    image_is_block, is_block_level_display, is_out_of_flow, place_table_cells, position_of, style_of,
    text_align_of, LayoutBox, TextAlignLocal,
};
use browser::style::{
    Clear, ComputedStyle, Display, Float, Position, TextAlign, TextTransform, Visibility,
    WhiteSpace, WordBreak,
};
use std::collections::HashMap;

fn style(display: Display) -> ComputedStyle {
    ComputedStyle {
        display,
        display_none: false,
        display_block: false,
        position: Position::Static,
        visibility: Visibility::Visible,
        white_space: WhiteSpace::Normal,
        text_transform: TextTransform::Identity,
        word_break: WordBreak::Normal,
        float: Float::NoFloat,
        clear: Clear::NoClear,
        text_align: TextAlign::Left,
        underline: false,
        line_through: false,
        overline: false,
    }
}

fn leaf(n: usize) -> LayoutBox {
    LayoutBox { node: Some(NodeId(n)), children: vec![] }
}

fn node_of(b: &LayoutBox) -> Option<usize> {
    b.node.map(|n| n.0)
}

#[test]
fn style_queries_default_for_anonymous_and_unstyled_boxes() {
    let styles: HashMap<usize, ComputedStyle> = HashMap::new();
    let anon = LayoutBox { node: None, children: vec![] };
    assert!(style_of(&anon, &styles).is_none());
    assert_eq!(display_of(&anon, &styles), Display::Block);
    assert_eq!(display_of(&leaf(1), &styles), Display::Block);
    assert_eq!(position_of(&leaf(1), &styles), Position::Static);
    assert_eq!(float_of(&leaf(1), &styles), Float::NoFloat);
    assert_eq!(clear_of(&leaf(1), &styles), Clear::NoClear);
    assert!(!is_out_of_flow(&leaf(1), &styles));
    assert!(!image_is_block(&leaf(1), &styles));
    assert_eq!(text_align_of(None, &styles), TextAlignLocal::Left);
}

#[test]
fn style_queries_read_the_computed_style() {
    let mut styles = HashMap::new();
    let mut s = style(Display::Inline);
    s.display_block = true;
    s.position = Position::Fixed;
    s.float = Float::Right;
    s.clear = Clear::Both;
    s.text_align = TextAlign::Justify;
    styles.insert(1, s);
    let mut hidden = style(Display::Flex);
    hidden.display_none = true;
    hidden.text_align = TextAlign::Center;
    styles.insert(2, hidden);
    assert_eq!(display_of(&leaf(1), &styles), Display::Block);
    assert_eq!(display_of(&leaf(2), &styles), Display::NoBox);
    assert!(is_out_of_flow(&leaf(1), &styles));
    assert!(image_is_block(&leaf(1), &styles));
    assert!(image_is_block(&leaf(2), &styles));
    assert_eq!(float_of(&leaf(1), &styles), Float::Right);
    assert_eq!(clear_of(&leaf(1), &styles), Clear::Both);
    assert_eq!(text_align_of(Some(NodeId(1)), &styles), TextAlignLocal::Left);
    assert_eq!(text_align_of(Some(NodeId(2)), &styles), TextAlignLocal::Center);
    assert_eq!(style_of(&leaf(2), &styles).map(|c| c.display), Some(Display::Flex));
}

#[test]
fn block_level_displays() {
    assert!(is_block_level_display(Display::Block));
    assert!(is_block_level_display(Display::TableColumnGroup));
    assert!(!is_block_level_display(Display::Inline));
    assert!(!is_block_level_display(Display::InlineFlex));
    assert!(!is_block_level_display(Display::NoBox));
}

fn table_styles() -> HashMap<usize, ComputedStyle> {
    let mut styles = HashMap::new();
    for (n, d) in [
        (10, Display::TableRow),
        (11, Display::TableCell),
        (12, Display::TableCell),
        (20, Display::TableHeaderGroup),
        (21, Display::TableRow),
        (22, Display::TableCell),
        (30, Display::TableFooterGroup),
        (31, Display::TableRow),
        (32, Display::TableCell),
        (40, Display::TableRowGroup),
        (41, Display::TableRow),
        (42, Display::TableCell),
        (50, Display::TableCaption),
    ] {
        styles.insert(n, style(d));
    }
    styles
}

#[test]
fn cells_are_the_table_cell_children_of_a_row() {
    let styles = table_styles();
    let row = LayoutBox { node: Some(NodeId(10)), children: vec![leaf(11), leaf(99), leaf(12)] };
    let cells: Vec<Option<usize>> = extract_cells(row, &styles).iter().map(node_of).collect();
    assert_eq!(cells, vec![Some(11), Some(12)]);
    let mut out = Vec::new();
    let group = LayoutBox {
        node: Some(NodeId(40)),
        children: vec![LayoutBox { node: Some(NodeId(41)), children: vec![leaf(42)] }, leaf(99)],
    };
    collect_group_rows(group, &styles, &mut out);
    assert_eq!(out.len(), 1);
    assert_eq!(out[0].iter().map(node_of).collect::<Vec<_>>(), vec![Some(42)]);
}

#[test]
fn table_rows_come_header_first_then_body_then_footer() {
    let styles = table_styles();
    let mut table = LayoutBox {
        node: Some(NodeId(1)),
        children: vec![
            leaf(50),
            LayoutBox { node: Some(NodeId(30)), children: vec![
                LayoutBox { node: Some(NodeId(31)), children: vec![leaf(32)] },
            ] },
            LayoutBox { node: Some(NodeId(10)), children: vec![leaf(11), leaf(12)] },
            LayoutBox { node: Some(NodeId(20)), children: vec![
                LayoutBox { node: Some(NodeId(21)), children: vec![leaf(22)] },
            ] },
            LayoutBox { node: Some(NodeId(40)), children: vec![
                LayoutBox { node: Some(NodeId(41)), children: vec![leaf(42)] },
            ] },
        ],
    };
    let rows = collect_table_rows(&mut table, &styles);
    let ids: Vec<Vec<Option<usize>>> =
        rows.iter().map(|r| r.iter().map(node_of).collect()).collect();
    assert_eq!(
        ids,
        vec![vec![Some(22)], vec![Some(11), Some(12)], vec![Some(42)], vec![Some(32)]]
    );
    assert!(table.children.is_empty());
    assert_eq!(table.node, Some(NodeId(1)));
}

fn cell(doc: &mut Document, tag: &str, attrs: &[(&str, &str)]) -> NodeId {
    let root = doc.root();
    doc.append_child(
        root,
        NodeData::Element(ElementData {
            tag: tag.into(),
            attrs: attrs.iter().map(|(k, v)| (k.to_string(), v.to_string())).collect(),
            namespace: None,
        }),
    )
}

#[test]
fn spans_are_parsed_clamped_and_recorded() {
    let mut doc = Document::new();
    let a = cell(&mut doc, "td", &[("colspan", "3")]);
    let b = cell(&mut doc, "TD", &[("rowspan", " 2 ")]);
    let c = cell(&mut doc, "col", &[("span", "5000"), ("colspan", "7")]);
    let d = cell(&mut doc, "td", &[("colspan", "0")]);
    let e = cell(&mut doc, "th", &[("colspan", "abc")]);
    let f = cell(&mut doc, "col", &[("colspan", "3")]);
    let g = cell(&mut doc, "td", &[("colspan", "99999999999999999999999")]);
    let h = cell(&mut doc, "td", &[("colspan", "+4")]);
    let spans = capture_table_spans(&doc);
    assert_eq!(spans.spans.len(), 4);
    assert_eq!(spans.spans.get(&a.0), Some(&(3, 1)));
    assert_eq!(spans.spans.get(&b.0), Some(&(1, 2)));
    assert_eq!(spans.spans.get(&c.0), Some(&(1000, 1)));
    assert_eq!(spans.spans.get(&h.0), Some(&(4, 1)));
    for id in [d, e, f, g] {
        assert_eq!(spans.spans.get(&id.0), None);
    }
    assert_eq!(table_span(&spans, &leaf(a.0), "colspan"), 3);
    assert_eq!(table_span(&spans, &leaf(a.0), "rowspan"), 1);
    assert_eq!(table_span(&spans, &leaf(b.0), "rowspan"), 2);
    assert_eq!(table_span(&spans, &leaf(e.0), "colspan"), 1);
    let anon = LayoutBox { node: None, children: vec![] };
    assert_eq!(table_span(&spans, &anon, "colspan"), 1);
    assert_eq!(col_span_attr(&spans, &leaf(c.0)), 1000);
    assert_eq!(col_span_attr(&spans, &leaf(f.0)), 1);
    assert_eq!(col_span_attr(&spans, &anon), 1);
}

#[test]
fn a_rowspan_pushes_the_next_row_past_its_column() {
    // Row 0: a cell two rows tall, then a plain cell; row 1: one plain cell, which must
    // skip column 0 (still covered) and land in column 1.
    let rows = vec![vec![(1, 2), (1, 1)], vec![(1, 1)]];
    let (placed, cols, nrows) = place_table_cells(&rows);
    assert_eq!(placed, vec![(0, 0, 1, 2), (0, 1, 1, 1), (1, 1, 1, 1)]);
    assert_eq!(cols, 2);
    assert_eq!(nrows, 2);
}

#[test]
fn colspans_widen_the_grid_and_rowspans_reach_past_the_last_row() {
    let rows = vec![vec![(3, 1)], vec![(1, 3), (2, 1)]];
    let (placed, cols, nrows) = place_table_cells(&rows);
    assert_eq!(placed, vec![(0, 0, 3, 1), (1, 0, 1, 3), (1, 1, 2, 1)]);
    assert_eq!(cols, 3);
    assert_eq!(nrows, 4);
}

#[test]
fn an_empty_table_places_nothing() {
    let rows: Vec<Vec<(usize, usize)>> = vec![vec![], vec![]];
    let (placed, cols, nrows) = place_table_cells(&rows);
    assert!(placed.is_empty());
    assert_eq!(cols, 0);
    assert_eq!(nrows, 0);
}
