//! Style queries on layout boxes, and the row/cell structure of a table box.
//!
//! The styles are a map from a node's arena index (`NodeId.0`) to its computed style.

use vstd::prelude::*;
use std::collections::HashMap;
use crate::dom::{Document, Node, NodeData, NodeId, ElementData, attr_value, get_attr};
use crate::style::{ComputedStyle, Display, Position, Float, Clear, TextAlign};
use crate::text::{to_chars, trim_vec, lower, eq_str, trim, lower_seq};
use crate::values::{parse_uint, parse_uint_spec};

verus! {

broadcast use vstd::std_specs::hash::group_hash_axioms;

/// A box of the layout tree, as far as these queries read it: the DOM node it was generated for
/// (`None` for an anonymous box) and its child boxes.
#[derive(Debug)]
pub struct LayoutBox {
    pub node: Option<NodeId>,
    pub children: Vec<LayoutBox>,
}

/// Horizontal alignment of a box's line boxes.
#[derive(Clone, Copy, PartialEq, Eq, Debug, Structural)]
pub enum TextAlignLocal {
    Left,
    Center,
    Right,
}

/// The computed style of a node, if the map has one.
pub open spec fn node_style(m: Map<usize, ComputedStyle>, node: Option<NodeId>) -> Option<ComputedStyle> {
    match node {
        Some(n) => if m.contains_key(n.0) {
            Some(m[n.0])
        } else {
            None
        },
        None => None,
    }
}

/// The computed style for a box's node, if any.
pub fn style_of<'a>(boxx: &LayoutBox, styles: &'a HashMap<usize, ComputedStyle>) -> (r: Option<
    &'a ComputedStyle,
>)
    ensures
        match r {
            Some(cs) => node_style(styles@, boxx.node) == Some(*cs),
            None => node_style(styles@, boxx.node) is None,
        },
{
    match boxx.node {
        Some(n) => styles.get(&n.0),
        None => None,
    }
}

/// The `display` of a box: `Block` for an anonymous or unstyled box, `NoBox` when the legacy
/// `display_none` flag is set, `Block` for an `Inline` display with the legacy `display_block`
/// flag, else the computed `display`.
pub open spec fn box_display(m: Map<usize, ComputedStyle>, node: Option<NodeId>) -> Display {
    match node_style(m, node) {
        None => Display::Block,
        Some(cs) => if cs.display_none {
            Display::NoBox
        } else if cs.display == Display::Inline && cs.display_block {
            Display::Block
        } else {
            cs.display
        },
    }
}

/// The `display` mode of a box (Block for anonymous/root boxes).
pub fn display_of(boxx: &LayoutBox, styles: &HashMap<usize, ComputedStyle>) -> (r: Display)
    ensures
        r == box_display(styles@, boxx.node),
{
    match style_of(boxx, styles) {
        None => Display::Block,
        Some(cs) => {
            if cs.display_none {
                Display::NoBox
            } else if cs.display == Display::Inline && cs.display_block {
                // Legacy flag set without the enum being updated.
                Display::Block
            } else {
                cs.display
            }
        },
    }
}

pub open spec fn image_block(m: Map<usize, ComputedStyle>, node: Option<NodeId>) -> bool {
    match node_style(m, node) {
        None => false,
        Some(cs) => {
            ||| cs.display == Display::Block || cs.display == Display::Flex || cs.display
                == Display::Grid
            ||| cs.display == Display::Inline && cs.display_block
            ||| cs.position == Position::Absolute || cs.position == Position::Fixed
        },
    }
}

/// True if an image box is block-level (computed display block/flex/grid, the legacy
/// `display_block` flag, or out of flow); otherwise the image is atomic inline-level.
pub fn image_is_block(boxx: &LayoutBox, styles: &HashMap<usize, ComputedStyle>) -> (r: bool)
    ensures
        r == image_block(styles@, boxx.node),
{
    match style_of(boxx, styles) {
        None => false,
        Some(cs) => {
            let block_display = cs.display == Display::Block || cs.display == Display::Flex
                || cs.display == Display::Grid || (cs.display == Display::Inline
                && cs.display_block);
            let out_of_flow = cs.position == Position::Absolute || cs.position == Position::Fixed;
            block_display || out_of_flow
        },
    }
}

pub open spec fn block_level_display(d: Display) -> bool {
    ||| d == Display::Block || d == Display::Flex || d == Display::Grid || d == Display::Table
    ||| d == Display::TableRow || d == Display::TableCell || d == Display::TableRowGroup
    ||| d == Display::TableHeaderGroup || d == Display::TableFooterGroup
    ||| d == Display::TableCaption || d == Display::TableColumn || d == Display::TableColumnGroup
}

/// True for `display` values that produce a block-level box in their parent's flow: block,
/// flex, grid, table, and the table-internal display types.
pub fn is_block_level_display(d: Display) -> (r: bool)
    ensures
        r == block_level_display(d),
{
    d == Display::Block || d == Display::Flex || d == Display::Grid || d == Display::Table || d
        == Display::TableRow || d == Display::TableCell || d == Display::TableRowGroup || d
        == Display::TableHeaderGroup || d == Display::TableFooterGroup || d
        == Display::TableCaption || d == Display::TableColumn || d == Display::TableColumnGroup
}

pub open spec fn box_position(m: Map<usize, ComputedStyle>, node: Option<NodeId>) -> Position {
    match node_style(m, node) {
        Some(cs) => cs.position,
        None => Position::Static,
    }
}

/// The `position` of a box (Static by default).
pub fn position_of(boxx: &LayoutBox, styles: &HashMap<usize, ComputedStyle>) -> (r: Position)
    ensures
        r == box_position(styles@, boxx.node),
{
    match style_of(boxx, styles) {
        Some(cs) => cs.position,
        None => Position::Static,
    }
}

/// True if a box is taken out of normal flow (absolutely or fixed positioned).
pub fn is_out_of_flow(boxx: &LayoutBox, styles: &HashMap<usize, ComputedStyle>) -> (r: bool)
    ensures
        r == (box_position(styles@, boxx.node) == Position::Absolute || box_position(
            styles@,
            boxx.node,
        ) == Position::Fixed),
{
    let p = position_of(boxx, styles);
    p == Position::Absolute || p == Position::Fixed
}

pub open spec fn box_float(m: Map<usize, ComputedStyle>, node: Option<NodeId>) -> Float {
    match node_style(m, node) {
        Some(cs) => cs.float,
        None => Float::NoFloat,
    }
}

/// A box's `float` (none by default).
pub fn float_of(boxx: &LayoutBox, styles: &HashMap<usize, ComputedStyle>) -> (r: Float)
    ensures
        r == box_float(styles@, boxx.node),
{
    match style_of(boxx, styles) {
        Some(cs) => cs.float,
        None => Float::NoFloat,
    }
}

pub open spec fn box_clear(m: Map<usize, ComputedStyle>, node: Option<NodeId>) -> Clear {
    match node_style(m, node) {
        Some(cs) => cs.clear,
        None => Clear::NoClear,
    }
}

/// A box's `clear` (none by default).
pub fn clear_of(boxx: &LayoutBox, styles: &HashMap<usize, ComputedStyle>) -> (r: Clear)
    ensures
        r == box_clear(styles@, boxx.node),
{
    match style_of(boxx, styles) {
        Some(cs) => cs.clear,
        None => Clear::NoClear,
    }
}

pub open spec fn node_text_align(m: Map<usize, ComputedStyle>, node: Option<NodeId>) -> TextAlignLocal {
    match node_style(m, node) {
        Some(cs) => if cs.text_align == TextAlign::Center {
            TextAlignLocal::Center
        } else if cs.text_align == TextAlign::Right {
            TextAlignLocal::Right
        } else {
            TextAlignLocal::Left
        },
        None => TextAlignLocal::Left,
    }
}

/// The text alignment of a node (Left by default; `justify` lays out as Left).
pub fn text_align_of(node: Option<NodeId>, styles: &HashMap<usize, ComputedStyle>) -> (r: TextAlignLocal)
    ensures
        r == node_text_align(styles@, node),
{
    let cs = match node {
        Some(n) => styles.get(&n.0),
        None => None,
    };
    match cs {
        Some(cs) => {
            if cs.text_align == TextAlign::Center {
                TextAlignLocal::Center
            } else if cs.text_align == TextAlign::Right {
                TextAlignLocal::Right
            } else {
                TextAlignLocal::Left
            }
        },
        None => TextAlignLocal::Left,
    }
}

// ---------------------------------------------------------------------------------------------
// Table structure
// ---------------------------------------------------------------------------------------------

/// The computed `display` of a box's node (`None` for an anonymous or unstyled box).
pub open spec fn raw_display(m: Map<usize, ComputedStyle>, b: LayoutBox) -> Option<Display> {
    match node_style(m, b.node) {
        Some(cs) => Some(cs.display),
        None => None,
    }
}

fn raw_display_of(b: &LayoutBox, styles: &HashMap<usize, ComputedStyle>) -> (r: Option<Display>)
    ensures
        r == raw_display(styles@, *b),
{
    match style_of(b, styles) {
        Some(cs) => Some(cs.display),
        None => None,
    }
}

/// The `display: table-cell` boxes among `s`, in order.
pub open spec fn cells_from(m: Map<usize, ComputedStyle>, s: Seq<LayoutBox>) -> Seq<LayoutBox>
    decreases s.len(),
{
    if s.len() == 0 {
        seq![]
    } else {
        cells_from(m, s.drop_last()) + if raw_display(m, s.last()) == Some(Display::TableCell) {
            seq![s.last()]
        } else {
            seq![]
        }
    }
}

/// The cell lists of the `display: table-row` boxes among `s`, in order.
pub open spec fn rows_from(m: Map<usize, ComputedStyle>, s: Seq<LayoutBox>) -> Seq<Seq<LayoutBox>>
    decreases s.len(),
{
    if s.len() == 0 {
        seq![]
    } else {
        rows_from(m, s.drop_last()) + if raw_display(m, s.last()) == Some(Display::TableRow) {
            seq![cells_from(m, s.last().children@)]
        } else {
            seq![]
        }
    }
}

/// Extract the cell boxes (`display: table-cell`) among the children of one row box.
pub fn extract_cells(row: LayoutBox, styles: &HashMap<usize, ComputedStyle>) -> (r: Vec<LayoutBox>)
    ensures
        r@ == cells_from(styles@, row.children@),
{
    let ghost kids = row.children@;
    let mut out: Vec<LayoutBox> = Vec::new();
    for c in it: row.children
        invariant
            it.seq() == kids,
            out@ == cells_from(styles@, kids.take(it.index() as int)),
    {
        let ghost k = it.index();
        assert(kids.take(k + 1).drop_last() =~= kids.take(k as int));
        assert(kids.take(k + 1).last() == c);
        if raw_display_of(&c, styles) == Some(Display::TableCell) {
            out.push(c);
        }
        assert(out@ =~= cells_from(styles@, kids.take(k + 1)));
    }
    assert(kids.take(kids.len() as int) =~= kids);
    out
}

/// Append the rows found inside a row-group box (`thead`/`tbody`/`tfoot`) to `out`.
pub fn collect_group_rows(group: LayoutBox, styles: &HashMap<usize, ComputedStyle>, out: &mut Vec<Vec<LayoutBox>>)
    ensures
        rows_view(final(out)@) == rows_view(old(out)@) + rows_from(styles@, group.children@),
{
    let ghost kids = group.children@;
    let ghost start = rows_view(out@);
    for row in it: group.children
        invariant
            it.seq() == kids,
            rows_view(out@) == start + rows_from(styles@, kids.take(it.index() as int)),
    {
        let ghost k = it.index();
        let ghost before = rows_view(out@);
        assert(kids.take(k + 1).drop_last() =~= kids.take(k as int));
        assert(kids.take(k + 1).last() == row);
        if raw_display_of(&row, styles) == Some(Display::TableRow) {
            let ghost cells = cells_from(styles@, row.children@);
            let v = extract_cells(row, styles);
            out.push(v);
            assert(rows_view(out@) =~= before.push(cells));
        }
        assert(rows_view(out@) =~= start + rows_from(styles@, kids.take(k + 1)));
    }
    assert(kids.take(kids.len() as int) =~= kids);
}

pub open spec fn rows_view(v: Seq<Vec<LayoutBox>>) -> Seq<Seq<LayoutBox>> {
    v.map_values(|r: Vec<LayoutBox>| r@)
}

/// The table's rows over its children: header-group rows, then body rows (direct rows and
/// row-group rows in document order), then footer-group rows.
pub open spec fn table_rows_state(m: Map<usize, ComputedStyle>, s: Seq<LayoutBox>) -> (
    Seq<Seq<LayoutBox>>,
    Seq<Seq<LayoutBox>>,
    Seq<Seq<LayoutBox>>,
)
    decreases s.len(),
{
    if s.len() == 0 {
        (seq![], seq![], seq![])
    } else {
        let (h, b, f) = table_rows_state(m, s.drop_last());
        let c = s.last();
        let d = raw_display(m, c);
        if d == Some(Display::TableRow) {
            (h, b.push(cells_from(m, c.children@)), f)
        } else if d == Some(Display::TableHeaderGroup) {
            (h + rows_from(m, c.children@), b, f)
        } else if d == Some(Display::TableFooterGroup) {
            (h, b, f + rows_from(m, c.children@))
        } else if d == Some(Display::TableRowGroup) {
            (h, b + rows_from(m, c.children@), f)
        } else {
            (h, b, f)
        }
    }
}

pub open spec fn table_rows(m: Map<usize, ComputedStyle>, s: Seq<LayoutBox>) -> Seq<Seq<LayoutBox>> {
    let (h, b, f) = table_rows_state(m, s);
    h + b + f
}

/// Gather the table's structure in the CSS table model's visual order (header groups first, then body
/// groups and direct rows in document order, then footer groups). Each row is the list of its
/// cell boxes. The table's children are moved out (captions and columns are dropped here; the
/// caller handles them separately).
pub fn collect_table_rows(table: &mut LayoutBox, styles: &HashMap<usize, ComputedStyle>) -> (r: Vec<Vec<LayoutBox>>)
    ensures
        rows_view(r@) == table_rows(styles@, old(table).children@),
        final(table).node == old(table).node,
        final(table).children@.len() == 0,
{
    let mut headers: Vec<Vec<LayoutBox>> = Vec::new();
    let mut bodies: Vec<Vec<LayoutBox>> = Vec::new();
    let mut footers: Vec<Vec<LayoutBox>> = Vec::new();
    // Move the table's children out so the cells can be moved by value.
    let mut children: Vec<LayoutBox> = Vec::new();
    std::mem::swap(&mut children, &mut table.children);
    let ghost kids = children@;
    for child in it: children
        invariant
            it.seq() == kids,
            (rows_view(headers@), rows_view(bodies@), rows_view(footers@)) == table_rows_state(
                styles@,
                kids.take(it.index() as int),
            ),
    {
        let ghost k = it.index();
        assert(kids.take(k + 1).drop_last() =~= kids.take(k as int));
        assert(kids.take(k + 1).last() == child);
        let ghost hb = rows_view(bodies@);
        let d = raw_display_of(&child, styles);
        if d == Some(Display::TableRow) {
            let ghost cells = cells_from(styles@, child.children@);
            let v = extract_cells(child, styles);
            bodies.push(v);
            assert(rows_view(bodies@) =~= hb.push(cells));
        } else if d == Some(Display::TableHeaderGroup) {
            collect_group_rows(child, styles, &mut headers);
        } else if d == Some(Display::TableFooterGroup) {
            collect_group_rows(child, styles, &mut footers);
        } else if d == Some(Display::TableRowGroup) {
            collect_group_rows(child, styles, &mut bodies);
        }
    }
    assert(kids.take(kids.len() as int) =~= kids);
    let ghost (h, b, f) = (rows_view(headers@), rows_view(bodies@), rows_view(footers@));
    let mut rows = headers;
    rows.append(&mut bodies);
    rows.append(&mut footers);
    assert(rows_view(rows@) =~= h + b + f);
    rows
}


// ---------------------------------------------------------------------------------------------
// Column and row spans
// ---------------------------------------------------------------------------------------------

/// The `(colspan, rowspan)` of the elements of a document whose spans are not both 1, by arena
/// index: a snapshot taken once per layout and read while building table column models.
pub struct TableSpans {
    pub spans: HashMap<usize, (usize, usize)>,
}

/// A span attribute's value: the attribute parsed as a `usize` (after trimming), clamped to
/// `[1, 1000]`; 1 when the attribute is missing or does not parse.
pub open spec fn span_attr(attrs: Seq<(String, String)>, name: Seq<char>) -> nat {
    match attr_value(attrs, name) {
        Some(v) => match parse_uint_spec(trim(v), usize::MAX as nat) {
            Some(n) => if n < 1 {
                1
            } else if n > 1000 {
                1000
            } else {
                n
            },
            None => 1,
        },
        None => 1,
    }
}

/// An element's spans: `<col>`/`<colgroup>` take their column span from `span`, other elements
/// from `colspan`; the row span is `rowspan`.
pub open spec fn element_spans(e: ElementData) -> (nat, nat) {
    let t = lower_seq(e.tag@);
    (
        if t == "col"@ || t == "colgroup"@ {
            span_attr(e.attrs@, "span"@)
        } else {
            span_attr(e.attrs@, "colspan"@)
        },
        span_attr(e.attrs@, "rowspan"@),
    )
}

/// The spans recorded for the first `n` nodes of an arena.
pub open spec fn spans_upto(nodes: Seq<Node>, n: int) -> Map<usize, (usize, usize)> {
    Map::new(
        |k: usize|
            (k as int) < n && k < nodes.len() && nodes[k as int].data is Element && element_spans(
                nodes[k as int].data->Element_0,
            ) != (1nat, 1nat),
        |k: usize|
            {
                let (c, r) = element_spans(nodes[k as int].data->Element_0);
                (c as usize, r as usize)
            },
    )
}

fn parse_span(el: &ElementData, name: &str) -> (r: usize)
    ensures
        r == span_attr(el.attrs@, name@),
        1 <= r <= 1000,
{
    match get_attr(&el.attrs, name) {
        Some(v) => match parse_uint(&trim_vec(&to_chars(v)), usize::MAX as u64) {
            Some(n) => {
                if n < 1 {
                    1
                } else if n > 1000 {
                    1000
                } else {
                    n as usize
                }
            },
            None => 1,
        },
        None => 1,
    }
}

/// Scan the whole document for elements with a span other than 1 (clamped to `[1, 1000]` so a
/// hostile `colspan=100000000` cannot blow up the column model) and record them.
pub fn capture_table_spans(doc: &Document) -> (r: TableSpans)
    ensures
        r.spans@ == spans_upto(doc@, doc@.len() as int),
{
    proof {
        reveal_strlit("col");
        reveal_strlit("colgroup");
    }
    let mut map: HashMap<usize, (usize, usize)> = HashMap::new();
    let n = doc.len();
    let mut i: usize = 0;
    assert(map@ =~= spans_upto(doc@, 0));
    while i < n
        invariant
            n == doc@.len(),
            0 <= i <= n,
            map@ == spans_upto(doc@, i as int),
        decreases n - i,
    {
        let node = doc.get(NodeId(i));
        if let NodeData::Element(el) = &node.data {
            let tag = lower(&to_chars(el.tag.as_str()));
            let cs = if eq_str(&tag, "col") || eq_str(&tag, "colgroup") {
                parse_span(el, "span")
            } else {
                parse_span(el, "colspan")
            };
            let rs = parse_span(el, "rowspan");
            assert((cs as nat, rs as nat) == element_spans(*el));
            if cs != 1 || rs != 1 {
                map.insert(i, (cs, rs));
            }
        }
        assert(map@ =~= spans_upto(doc@, i + 1));
        i += 1;
    }
    TableSpans { spans: map }
}

/// A cell's recorded span for `name` (`colspan`, else the row span); 1 when it has none.
pub open spec fn span_of(m: Map<usize, (usize, usize)>, node: Option<NodeId>, colspan: bool) -> nat {
    match node {
        Some(n) => if m.contains_key(n.0) {
            if colspan {
                m[n.0].0 as nat
            } else {
                m[n.0].1 as nat
            }
        } else {
            1
        },
        None => 1,
    }
}

/// The `colspan` (when `name` is `"colspan"`) or `rowspan` (any other name) of a cell box.
pub fn table_span(spans: &TableSpans, cell: &LayoutBox, name: &str) -> (r: usize)
    ensures
        r == span_of(spans.spans@, cell.node, name@ == "colspan"@),
{
    let node = match cell.node {
        Some(n) => n,
        None => {
            return 1;
        },
    };
    match spans.spans.get(&node.0) {
        Some(pair) => if eq_str(&to_chars(name), "colspan") {
            pair.0
        } else {
            pair.1
        },
        None => 1,
    }
}

/// The `span` of a `<col>`/`<colgroup>` box (at least 1).
pub fn col_span_attr(spans: &TableSpans, col: &LayoutBox) -> (r: usize)
    ensures
        r == if span_of(spans.spans@, col.node, true) < 1 {
            1
        } else {
            span_of(spans.spans@, col.node, true)
        },
{
    let node = match col.node {
        Some(n) => n,
        None => {
            return 1;
        },
    };
    match spans.spans.get(&node.0) {
        Some(pair) => if pair.0 < 1 {
            1
        } else {
            pair.0
        },
        None => 1,
    }
}


// ---------------------------------------------------------------------------------------------
// Placing cells on the table grid
// ---------------------------------------------------------------------------------------------

/// A cell placed on the table grid: `(row, col, colspan, rowspan)`.
pub open spec fn covers(g: (usize, usize, usize, usize), r: int, c: int) -> bool {
    g.0 <= r < g.0 + g.3 && g.1 <= c < g.1 + g.2
}

/// Whether a grid slot is already taken by a placed cell (spanning cells take several).
pub open spec fn covered(placed: Seq<(usize, usize, usize, usize)>, r: int, c: int) -> bool {
    exists|i: int| 0 <= i < placed.len() && covers(#[trigger] placed[i], r, c)
}

/// The first free column of row `r` at or after `c` (`bound` is past every taken column).
pub open spec fn free_from(placed: Seq<(usize, usize, usize, usize)>, r: int, c: int, bound: int) -> int
    decreases bound - c,
{
    if c >= bound || !covered(placed, r, c) {
        c
    } else {
        free_from(placed, r, c + 1, bound)
    }
}

/// Placing the first `k` cells of row `r` (spans `(colspan, rowspan)`): the placed cells, the
/// column count so far, and the next column to try.
pub open spec fn row_state(
    placed: Seq<(usize, usize, usize, usize)>,
    cols: int,
    r: int,
    cells: Seq<(usize, usize)>,
    k: int,
) -> (Seq<(usize, usize, usize, usize)>, int, int)
    decreases k,
{
    if k <= 0 {
        (placed, cols, 0)
    } else {
        let (p, cc, c) = row_state(placed, cols, r, cells, k - 1);
        let at = free_from(p, r, c, cc);
        let (cs, rs) = cells[k - 1];
        (
            p.push((r as usize, at as usize, cs, rs)),
            if cc > at + cs { cc } else { at + cs },
            at + cs,
        )
    }
}

/// Placing the cells of the first `n` rows, in row order: each cell goes to the first column
/// not already taken by a cell spanning down from an earlier row, and takes `colspan` columns
/// of `rowspan` rows.
pub open spec fn grid_state(rows: Seq<Seq<(usize, usize)>>, n: int) -> (Seq<(usize, usize, usize, usize)>, int)
    decreases n,
{
    if n <= 0 {
        (seq![], 0)
    } else {
        let (p, cc) = grid_state(rows, n - 1);
        let (p2, cc2, _) = row_state(p, cc, n - 1, rows[n - 1], rows[n - 1].len() as int);
        (p2, cc2)
    }
}

/// The number of cells of the first `n` rows.
pub open spec fn cells_upto(rows: Seq<Seq<(usize, usize)>>, n: int) -> int
    decreases n,
{
    if n <= 0 {
        0
    } else {
        cells_upto(rows, n - 1) + rows[n - 1].len()
    }
}

pub open spec fn spans_in_range(rows: Seq<Seq<(usize, usize)>>) -> bool {
    forall|r: int, i: int|
        0 <= r < rows.len() && 0 <= i < rows[r].len() ==> 1 <= (#[trigger] rows[r][i]).0 <= 1000 && 1
            <= rows[r][i].1 <= 1000
}

/// Every placed cell starts on a slot that no cell placed before it covers.
pub open spec fn starts_free(placed: Seq<(usize, usize, usize, usize)>) -> bool {
    forall|i: int|
        0 <= i < placed.len() ==> !covered(placed.take(i), (#[trigger] placed[i]).0 as int, placed[i].1 as int)
}

/// No placed cell reaches column `bound` or beyond, and every placed cell lies in a row before `n`.
pub open spec fn placed_within(placed: Seq<(usize, usize, usize, usize)>, bound: int, n: int) -> bool {
    forall|i: int|
        0 <= i < placed.len() ==> (#[trigger] placed[i]).1 + placed[i].2 <= bound && placed[i].0 < n
            && 1 <= placed[i].3 <= 1000
}

fn is_covered(placed: &Vec<(usize, usize, usize, usize)>, r: usize, c: usize) -> (b: bool)
    ensures
        b == covered(placed@, r as int, c as int),
{
    let mut i: usize = 0;
    while i < placed.len()
        invariant
            0 <= i <= placed@.len(),
            forall|j: int| 0 <= j < i ==> !covers(#[trigger] placed@[j], r as int, c as int),
        decreases placed@.len() - i,
    {
        let g = placed[i];
        if g.0 <= r && r - g.0 < g.3 && g.1 <= c && c - g.1 < g.2 {
            assert(covers(placed@[i as int], r as int, c as int));
            return true;
        }
        i += 1;
    }
    false
}

proof fn lemma_free_from_bound(placed: Seq<(usize, usize, usize, usize)>, r: int, c: int, bound: int)
    ensures
        free_from(placed, r, c, bound) >= c,
        c <= bound ==> free_from(placed, r, c, bound) <= bound,
    decreases bound - c,
{
    if !(c >= bound || !covered(placed, r, c)) {
        lemma_free_from_bound(placed, r, c + 1, bound);
    }
}

/// Assign the cells of a table, row by row, to grid positions honouring `colspan` and
/// `rowspan` (`rows[r][i]` is the `(colspan, rowspan)` of cell `i` of row `r`, each in
/// `[1, 1000]` as `table_span` gives them). Returns the placed cells as
/// `(row, col, colspan, rowspan)` in order, the number of columns, and the number of rows the
/// cells reach.
pub fn place_table_cells(rows: &Vec<Vec<(usize, usize)>>) -> (r: (Vec<(usize, usize, usize, usize)>, usize, usize))
    requires
        spans_in_range(rows@.map_values(|v: Vec<(usize, usize)>| v@)),
        1000 * cells_upto(rows@.map_values(|v: Vec<(usize, usize)>| v@), rows@.len() as int) + 1000
            <= usize::MAX,
        rows@.len() + 1000 <= usize::MAX,
    ensures
        ({
            let (placed, cols) = grid_state(
                rows@.map_values(|v: Vec<(usize, usize)>| v@),
                rows@.len() as int,
            );
            &&& r.0@ == placed
            &&& r.1 == cols
            &&& forall|i: int| 0 <= i < placed.len() ==> (#[trigger] placed[i]).0 + placed[i].3 <= r.2
            &&& (placed.len() == 0 ==> r.2 == 0)
            &&& (placed.len() > 0 ==> exists|i: int|
                0 <= i < placed.len() && (#[trigger] placed[i]).0 + placed[i].3 == r.2)
            &&& forall|i: int|
                0 <= i < placed.len() ==> !covered(placed.take(i), (#[trigger] placed[i]).0 as int, placed[i].1 as int)
        }),
{
    let ghost rv = rows@.map_values(|v: Vec<(usize, usize)>| v@);
    let ghost total = cells_upto(rv, rows@.len() as int);
    let mut placed: Vec<(usize, usize, usize, usize)> = Vec::new();
    let mut cols: usize = 0;
    let mut ri: usize = 0;
    proof {
        lemma_cells_upto_mono(rv, 0, rows@.len() as int);
        assert(cells_upto(rv, 0) == 0);
    }
    while ri < rows.len()
        invariant
            rv == rows@.map_values(|v: Vec<(usize, usize)>| v@),
            spans_in_range(rv),
            total == cells_upto(rv, rows@.len() as int),
            1000 * total + 1000 <= usize::MAX,
            rows@.len() + 1000 <= usize::MAX,
            0 <= ri <= rows@.len(),
            (placed@, cols as int) == grid_state(rv, ri as int),
            cols <= 1000 * cells_upto(rv, ri as int),
            cells_upto(rv, ri as int) <= total,
            placed_within(placed@, cols as int, ri as int),
            starts_free(placed@),
        decreases rows@.len() - ri,
    {
        let row = &rows[ri];
        assert(rv[ri as int] == row@);
        let ghost p0 = placed@;
        let ghost cc0 = cols as int;
        let mut c: usize = 0;
        let mut k: usize = 0;
        proof {
            lemma_cells_upto_mono(rv, ri as int + 1, rows@.len() as int);
        }
        while k < row.len()
            invariant
                rv == rows@.map_values(|v: Vec<(usize, usize)>| v@),
                spans_in_range(rv),
                rv[ri as int] == row@,
                0 <= ri < rows@.len(),
                rows@.len() + 1000 <= usize::MAX,
                0 <= k <= row@.len(),
                (placed@, cols as int, c as int) == row_state(p0, cc0, ri as int, row@, k as int),
                c <= cols,
                cols <= 1000 * (cells_upto(rv, ri as int) + k),
                1000 * (cells_upto(rv, ri as int) + row@.len()) + 1000 <= usize::MAX,
                placed_within(placed@, cols as int, ri as int + 1),
                starts_free(placed@),
            decreases row@.len() - k,
        {
            let ghost pk = placed@;
            // Skip the columns taken by cells spanning down from earlier rows.
            let ghost c_start = c as int;
            while c < cols && is_covered(&placed, ri, c)
                invariant
                    c <= cols,
                    free_from(pk, ri as int, c_start, cols as int) == free_from(pk, ri as int, c as int, cols as int),
                    pk == placed@,
                decreases cols - c,
            {
                c += 1;
            }
            proof {
                if c >= cols {
                } else {
                    assert(!covered(pk, ri as int, c as int));
                }
                assert(free_from(pk, ri as int, c as int, cols as int) == c);
                assert(!covered(pk, ri as int, c as int)) by {
                    if c >= cols {
                        assert forall|j: int| 0 <= j < pk.len() implies !covers(#[trigger] pk[j], ri as int, c as int) by {
                        }
                    }
                }
            }
            let (cs, rs) = row[k];
            assert(row@[k as int] == rv[ri as int][k as int]);
            let ghost before = placed@;
            placed.push((ri, c, cs, rs));
            c = c + cs;
            if cols < c {
                cols = c;
            }
            proof {
                assert forall|i: int| 0 <= i < placed@.len() implies (#[trigger] placed@[i]).1 + placed@[i].2
                    <= cols && placed@[i].0 < ri + 1 && 1 <= placed@[i].3 <= 1000 by {
                    if i < before.len() {
                        assert(placed@[i] == before[i]);
                    }
                }
                assert forall|i: int| 0 <= i < placed@.len() implies !covered(
                    placed@.take(i),
                    (#[trigger] placed@[i]).0 as int,
                    placed@[i].1 as int,
                ) by {
                    if i < before.len() {
                        assert(placed@[i] == before[i]);
                        assert(placed@.take(i) =~= before.take(i));
                    } else {
                        assert(placed@.take(i) =~= before);
                    }
                }
            }
            k += 1;
        }
        proof {
            assert(cells_upto(rv, ri as int + 1) == cells_upto(rv, ri as int) + row@.len());
        }
        ri += 1;
    }
    // The rows the cells reach.
    let mut nr: usize = 0;
    let mut i: usize = 0;
    while i < placed.len()
        invariant
            0 <= i <= placed@.len(),
            placed_within(placed@, cols as int, rows@.len() as int),
            rows@.len() + 1000 <= usize::MAX,
            starts_free(placed@),
            forall|j: int| 0 <= j < i ==> (#[trigger] placed@[j]).0 + placed@[j].3 <= nr,
            i == 0 ==> nr == 0,
            i > 0 ==> exists|j: int| 0 <= j < i && (#[trigger] placed@[j]).0 + placed@[j].3 == nr,
        decreases placed@.len() - i,
    {
        let g = placed[i];
        assert(placed@[i as int] == g);
        let end = g.0 + g.3;
        if end > nr {
            nr = end;
        }
        i += 1;
    }
    (placed, cols, nr)
}

proof fn lemma_cells_upto_mono(rows: Seq<Seq<(usize, usize)>>, a: int, b: int)
    requires
        0 <= a <= b,
    ensures
        cells_upto(rows, a) <= cells_upto(rows, b),
    decreases b - a,
{
    if a < b {
        lemma_cells_upto_mono(rows, a, b - 1);
    }
}

} // verus!
