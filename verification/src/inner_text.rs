//! The `innerText` / `outerText` IDL attributes (HTML "the innerText IDL attribute").
//!
//! The getter implements the *rendered text* algorithm: a walk of the DOM that honors
//! `display:none`, `<br>`, block-vs-inline boundaries, table cell/row separators, `<p>` blank
//! lines, `text-transform`, and CSS whitespace collapsing (including collapse *across* inline
//! element boundaries). It is driven by the cascaded [`ComputedStyle`] of each element rather than
//! by a box tree, so it is independent of fonts and soft line wrapping.
//!
//! The setters implement the *rendered text fragment* algorithm: runs of text become Text nodes
//! and each line break (CR, LF, or CRLF) becomes a `<br>` element. `innerText` replaces the
//! element's children; `outerText` replaces the element itself and merges with adjacent Text
//! siblings.
//!
//! The styles are a map from a node's arena index (`NodeId.0`) to its computed style; a node
//! without an entry is treated as an inline, visible, `white-space: normal` box.

use vstd::prelude::*;
use std::collections::HashMap;
use crate::style::{ComputedStyle, Display, Position, TextTransform, Visibility, WhiteSpace};
use crate::dom::{
    Document, ElementData, Node, NodeData, NodeId, attr_value, get_attr, descendant_text, first_match,
    lemma_wf_fewer_links, doc_wf, data_ok, distinct_names, rank, deeper, depth_ok, rank_seq,
    lemma_wf_from_depth, lemma_wf_depth,
};
use crate::dom_helpers::{
    push_descendant_text, detach_children, children_replaced, lemma_children_replaced_push,
    spec_text_content,
};
use crate::text::{
    is_ws, is_ascii_ws, is_whitespace, is_ascii_whitespace, to_chars, push_char, push_str, lower,
    lower_seq, eq_str, slice_vec, string_from, string_of,
};

verus! {

broadcast use {vstd::string::group_string_axioms, vstd::std_specs::hash::group_hash_axioms};

// ---------------------------------------------------------------------------------------------
// Tokens
// ---------------------------------------------------------------------------------------------

/// A token produced while walking the tree, before whitespace collapsing.
#[derive(Clone, Copy, PartialEq, Eq, Debug, Structural)]
pub enum Tok {
    /// A run-collapsible whitespace character (becomes at most one space).
    Space,
    /// A literal character (preserved whitespace, letters, `\n` from `<br>` / `white-space:pre`).
    Char(char),
    /// An atomic inline boundary (replaced element / inline-block): contributes no text, but
    /// stops adjacent collapsible whitespace from being removed at what would otherwise look like
    /// an edge.
    Atomic,
    /// A required line break count from a block-level box.
    Break(u8),
}

// ---------------------------------------------------------------------------------------------
// text-transform
// ---------------------------------------------------------------------------------------------

/// What `str::to_uppercase` returns for a string (full Unicode case mapping).
pub uninterp spec fn upper_str(s: Seq<char>) -> Seq<char>;

/// What `str::to_lowercase` returns for a string (full Unicode case mapping).
pub uninterp spec fn lower_str(s: Seq<char>) -> Seq<char>;

/// The characters `char::to_uppercase` yields for one character.
pub uninterp spec fn upper_char(c: char) -> Seq<char>;

/// `str::to_uppercase`. Its result is a fixed function of the characters of `s` (the Unicode
/// case tables), which the contract names without stating.
#[verifier::external_body]
fn str_to_uppercase(s: &str) -> (r: String)
    ensures
        r@ == upper_str(s@),
{
    s.to_uppercase()
}

/// `str::to_lowercase`, named like `str_to_uppercase`.
#[verifier::external_body]
fn str_to_lowercase(s: &str) -> (r: String)
    ensures
        r@ == lower_str(s@),
{
    s.to_lowercase()
}

/// `char::to_uppercase`, collected into a string.
#[verifier::external_body]
fn char_to_uppercase(c: char) -> (r: String)
    ensures
        r@ == upper_char(c),
{
    c.to_uppercase().collect()
}

/// `text-transform: capitalize`: the result so far, and whether the next character starts a word.
pub open spec fn capitalize_state(s: Seq<char>) -> (Seq<char>, bool)
    decreases s.len(),
{
    if s.len() == 0 {
        (seq![], true)
    } else {
        let (out, at_word_start) = capitalize_state(s.drop_last());
        let c = s.last();
        if is_ws(c) {
            (out.push(c), true)
        } else if at_word_start {
            (out + upper_char(c), false)
        } else {
            (out.push(c), false)
        }
    }
}

/// The first character of every whitespace-separated word upper-cased.
pub open spec fn capitalize(s: Seq<char>) -> Seq<char> {
    capitalize_state(s).0
}

/// Once a whitespace character has been read, what follows is capitalized on its own.
proof fn lemma_capitalize_after_start(a: Seq<char>, b: Seq<char>)
    requires
        capitalize_state(a).1,
    ensures
        capitalize_state(a + b) == (capitalize_state(a).0 + capitalize_state(b).0, capitalize_state(b).1),
    decreases b.len(),
{
    if b.len() == 0 {
        assert(a + b =~= a);
    } else {
        lemma_capitalize_after_start(a, b.drop_last());
        assert((a + b).drop_last() =~= a + b.drop_last());
        assert((a + b).last() == b.last());
        let (o1, _) = capitalize_state(a);
        let (o2, _) = capitalize_state(b.drop_last());
        assert(o1 + o2.push(b.last()) =~= (o1 + o2).push(b.last()));
        assert(o1 + (o2 + upper_char(b.last())) =~= (o1 + o2) + upper_char(b.last()));
    }
}

/// A word (no whitespace) capitalizes to its first character upper-cased, the rest unchanged.
proof fn lemma_capitalize_word(w: Seq<char>)
    requires
        w.len() > 0,
        forall|i: int| 0 <= i < w.len() ==> !is_ws(#[trigger] w[i]),
    ensures
        capitalize_state(w) == (upper_char(w[0]) + w.drop_first(), false),
    decreases w.len(),
{
    assert(!is_ws(w[w.len() - 1]));
    if w.len() == 1 {
        assert(w.drop_last() =~= Seq::<char>::empty());
        assert(capitalize_state(w.drop_last()) == (Seq::<char>::empty(), true));
        assert(w.drop_first() =~= Seq::<char>::empty());
        assert(upper_char(w[0]) + w.drop_first() =~= upper_char(w[0]));
        assert(Seq::<char>::empty() + upper_char(w[0]) =~= upper_char(w[0]));
        assert(w.last() == w[0]);
    } else {
        let p = w.drop_last();
        assert forall|i: int| 0 <= i < p.len() implies !is_ws(#[trigger] p[i]) by {
            assert(p[i] == w[i]);
        }
        lemma_capitalize_word(p);
        assert(p[0] == w[0]);
        assert(p.drop_first().push(w.last()) =~= w.drop_first());
        assert((upper_char(w[0]) + p.drop_first()).push(w.last()) =~= upper_char(w[0]) + w.drop_first());
    }
}

/// `text-transform: capitalize` works word by word: after any whitespace character a new word
/// starts, so the text after it is capitalized exactly as it would be on its own.
pub proof fn law_capitalize_restarts_after_whitespace(a: Seq<char>, b: Seq<char>)
    requires
        a.len() > 0,
        is_ws(a.last()),
    ensures
        transform(a + b, TextTransform::Capitalize) == transform(a, TextTransform::Capitalize) + transform(
            b,
            TextTransform::Capitalize,
        ),
{
    lemma_capitalize_after_start(a, b);
}

/// Under `text-transform: capitalize` a whitespace-free word has its first character upper-cased
/// (as `char::to_uppercase` maps it) and the rest kept; whitespace is kept as it is.
pub proof fn law_capitalize_word(w: Seq<char>)
    ensures
        w.len() > 0 && (forall|i: int| 0 <= i < w.len() ==> !is_ws(#[trigger] w[i])) ==> transform(
            w,
            TextTransform::Capitalize,
        ) == upper_char(w[0]) + w.drop_first(),
        (forall|i: int| 0 <= i < w.len() ==> is_ws(#[trigger] w[i])) ==> transform(w, TextTransform::Capitalize)
            == w,
    decreases w.len(),
{
    if w.len() > 0 && (forall|i: int| 0 <= i < w.len() ==> !is_ws(#[trigger] w[i])) {
        lemma_capitalize_word(w);
    }
    if (forall|i: int| 0 <= i < w.len() ==> is_ws(#[trigger] w[i])) {
        if w.len() > 0 {
            let p = w.drop_last();
            assert forall|i: int| 0 <= i < p.len() implies is_ws(#[trigger] p[i]) by {
                assert(p[i] == w[i]);
            }
            law_capitalize_word(p);
            assert(is_ws(w[w.len() - 1]));
            assert(capitalize_state(p).0.push(w.last()) =~= w);
        }
    }
}

pub open spec fn transform(s: Seq<char>, t: TextTransform) -> Seq<char> {
    match t {
        TextTransform::Identity => s,
        TextTransform::Uppercase => upper_str(s),
        TextTransform::Lowercase => lower_str(s),
        TextTransform::Capitalize => capitalize(s),
    }
}

/// Apply a `text-transform` value to a run of text.
pub fn apply_text_transform(s: &str, t: TextTransform) -> (r: String)
    ensures
        r@ == transform(s@, t),
{
    match t {
        TextTransform::Identity => {
            let mut out = String::new();
            push_str(&mut out, s);
            out
        },
        TextTransform::Uppercase => str_to_uppercase(s),
        TextTransform::Lowercase => str_to_lowercase(s),
        TextTransform::Capitalize => {
            let v = to_chars(s);
            let mut out = String::new();
            let mut at_word_start = true;
            let mut i: usize = 0;
            while i < v.len()
                invariant
                    v@ == s@,
                    0 <= i <= v@.len(),
                    (out@, at_word_start) == capitalize_state(v@.take(i as int)),
                decreases v@.len() - i,
            {
                let c = v[i];
                assert(v@.take(i + 1).drop_last() =~= v@.take(i as int));
                if is_whitespace(c) {
                    at_word_start = true;
                    push_char(&mut out, c);
                } else if at_word_start {
                    at_word_start = false;
                    let u = char_to_uppercase(c);
                    push_str(&mut out, u.as_str());
                } else {
                    push_char(&mut out, c);
                }
                i += 1;
            }
            assert(v@.take(v@.len() as int) =~= v@);
            out
        },
    }
}

// ---------------------------------------------------------------------------------------------
// white-space
// ---------------------------------------------------------------------------------------------

/// The tokens of a (transformed) text run under a `white-space` value: `normal`/`nowrap` make
/// every collapsible whitespace character a `Space`; `pre`/`pre-wrap` keep everything literally
/// but normalize CR and CRLF to LF; `pre-line` does the same with newlines and collapses the
/// other whitespace.
pub open spec fn ws_tokens(s: Seq<char>, ws: WhiteSpace) -> Seq<Tok>
    decreases s.len(),
{
    if s.len() == 0 {
        seq![]
    } else {
        let c = s[0];
        if ws == WhiteSpace::Normal || ws == WhiteSpace::Nowrap {
            seq![if is_ascii_ws(c) { Tok::Space } else { char_tok(c) }] + ws_tokens(
                s.drop_first(),
                ws,
            )
        } else if c == '\r' {
            if s.len() > 1 && s[1] == '\n' {
                seq![Tok::Char('\n')] + ws_tokens(s.skip(2), ws)
            } else {
                seq![Tok::Char('\n')] + ws_tokens(s.drop_first(), ws)
            }
        } else if ws == WhiteSpace::PreLine && c != '\n' && is_ascii_ws(c) {
            seq![Tok::Space] + ws_tokens(s.drop_first(), ws)
        } else {
            seq![char_tok(c)] + ws_tokens(s.drop_first(), ws)
        }
    }
}

/// A run-collapsible whitespace character: space, tab, line feed, form feed or carriage return.
fn is_collapsible_ws(c: char) -> (r: bool)
    ensures
        r == is_ascii_ws(c),
{
    c == ' ' || c == '\t' || c == '\n' || c == '\r' || c == '\u{0C}'
}

/// The token at position `i` of `v` and the number of characters it consumes.
fn next_token(v: &Vec<char>, i: usize, ws: WhiteSpace) -> (r: (Tok, usize))
    requires
        i < v@.len(),
    ensures
        1 <= r.1 <= 2,
        i + r.1 <= v@.len(),
        ws_tokens(v@.skip(i as int), ws) == seq![r.0] + ws_tokens(v@.skip(i + r.1), ws),
{
    let n = v.len();
    let c = v[i];
    let ghost rest = v@.skip(i as int);
    assert(rest.drop_first() =~= v@.skip(i + 1));
    assert(rest[0] == c);
    assert(rest.len() > 0);
    if ws == WhiteSpace::Normal || ws == WhiteSpace::Nowrap {
        if is_collapsible_ws(c) {
            assert(ws_tokens(rest, ws) == seq![Tok::Space] + ws_tokens(rest.drop_first(), ws));
            (Tok::Space, 1)
        } else {
            assert(ws_tokens(rest, ws) == seq![Tok::Char(c)] + ws_tokens(rest.drop_first(), ws));
            (Tok::Char(c), 1)
        }
    } else if c == '\r' {
        if i + 1 < n && v[i + 1] == '\n' {
            assert(rest[1] == v@[i + 1]);
            assert(rest.skip(2) =~= v@.skip(i + 2));
            assert(ws_tokens(rest, ws) == seq![Tok::Char('\n')] + ws_tokens(rest.skip(2), ws));
            (Tok::Char('\n'), 2)
        } else {
            assert(ws_tokens(rest, ws) == seq![Tok::Char('\n')] + ws_tokens(rest.drop_first(), ws));
            (Tok::Char('\n'), 1)
        }
    } else if ws == WhiteSpace::PreLine && c != '\n' && is_collapsible_ws(c) {
        assert(ws_tokens(rest, ws) == seq![Tok::Space] + ws_tokens(rest.drop_first(), ws));
        (Tok::Space, 1)
    } else {
        assert(ws_tokens(rest, ws) == seq![Tok::Char(c)] + ws_tokens(rest.drop_first(), ws));
        (Tok::Char(c), 1)
    }
}

/// Tokenize a run of text according to its `white-space` value.
pub fn text_tokens(s: &str, ws: WhiteSpace) -> (r: Vec<Tok>)
    ensures
        r@ == ws_tokens(s@, ws),
{
    let v = to_chars(s);
    let n = v.len();
    let mut out: Vec<Tok> = Vec::new();
    let mut i: usize = 0;
    assert(v@.skip(0) =~= v@);
    while i < n
        invariant
            v@ == s@,
            n == v@.len(),
            0 <= i <= n,
            ws_tokens(s@, ws) == out@ + ws_tokens(v@.skip(i as int), ws),
        decreases n - i,
    {
        let (tok, step) = next_token(&v, i, ws);
        let ghost tail = ws_tokens(v@.skip(i + step), ws);
        let ghost before = out@;
        out.push(tok);
        assert(before + (seq![tok] + tail) =~= out@ + tail);
        i += step;
    }
    assert(out@ =~= out@ + ws_tokens(v@.skip(n as int), ws));
    out
}

// ---------------------------------------------------------------------------------------------
// Collapsing the token stream
// ---------------------------------------------------------------------------------------------

/// The literal-character token for `c`.
pub open spec fn char_tok(c: char) -> Tok {
    Tok::Char(c)
}

/// A forced line edge: a required break, or a literal newline.
pub open spec fn is_hard_edge(t: Tok) -> bool {
    t is Break || t == Tok::Char('\n')
}

/// Whitespace collapsing over a token prefix: the tokens kept so far, and whether a run of
/// `Space` tokens is pending. A run of spaces survives as one `Space` only when neither the token
/// kept before it nor the token after it is a line edge (stream start and end count as edges).
pub open spec fn trim_spaces_state(toks: Seq<Tok>) -> (Seq<Tok>, bool)
    decreases toks.len(),
{
    if toks.len() == 0 {
        (seq![], false)
    } else {
        let (kept, pending) = trim_spaces_state(toks.drop_last());
        let t = toks.last();
        if t is Space {
            (kept, true)
        } else {
            let left_edge = kept.len() == 0 || is_hard_edge(kept.last());
            let keep_space = pending && !left_edge && !is_hard_edge(t);
            ((if keep_space { kept.push(Tok::Space) } else { kept }).push(t), false)
        }
    }
}

pub open spec fn trim_spaces(toks: Seq<Tok>) -> Seq<Tok> {
    trim_spaces_state(toks).0
}

pub open spec fn newlines(n: nat) -> Seq<char> {
    Seq::new(n, |i: int| '\n')
}

/// Emit one character of text: pending line breaks first (only between two pieces of text).
pub open spec fn emit(st: (Seq<char>, nat, bool), c: char) -> (Seq<char>, nat, bool) {
    let (out, pending, seen) = st;
    ((if seen { out + newlines(pending) } else { out }).push(c), 0, true)
}

/// Resolving required line breaks over a token prefix: the text so far, the largest break count
/// pending since the last text, and whether any text has been emitted. Breaks before the first
/// text and after the last are dropped; between two texts a run of breaks becomes as many
/// newlines as its largest count.
pub open spec fn render_state(toks: Seq<Tok>) -> (Seq<char>, nat, bool)
    decreases toks.len(),
{
    if toks.len() == 0 {
        (seq![], 0, false)
    } else {
        let st = render_state(toks.drop_last());
        match toks.last() {
            Tok::Space => emit(st, ' '),
            Tok::Char(c) => emit(st, c),
            Tok::Atomic => st,
            Tok::Break(k) => (st.0, if k > st.1 { k as nat } else { st.1 }, st.2),
        }
    }
}

/// The rendered string of a token stream.
pub open spec fn collapse_spec(toks: Seq<Tok>) -> Seq<char> {
    render_state(trim_spaces(toks)).0
}

/// Collapse a token stream to the final rendered string: remove collapsible whitespace at line
/// edges (stream start/end, around forced breaks), collapse interior runs to a single space, then
/// resolve required line break counts (dropping leading/trailing runs, each run becomes its
/// maximum count of newlines).
pub fn collapse(toks: Vec<Tok>) -> (r: String)
    ensures
        r@ == collapse_spec(toks@),
{
    // Pass 1: whitespace runs.
    let mut kept: Vec<Tok> = Vec::new();
    let mut pending_space = false;
    let mut i: usize = 0;
    while i < toks.len()
        invariant
            0 <= i <= toks@.len(),
            (kept@, pending_space) == trim_spaces_state(toks@.take(i as int)),
        decreases toks@.len() - i,
    {
        let t = toks[i];
        assert(toks@.take(i + 1).drop_last() =~= toks@.take(i as int));
        if t == Tok::Space {
            pending_space = true;
        } else {
            let left_edge = kept.len() == 0 || match kept[kept.len() - 1] {
                Tok::Break(_) => true,
                Tok::Char(c) => c == '\n',
                _ => false,
            };
            let right_edge = match t {
                Tok::Break(_) => true,
                Tok::Char(c) => c == '\n',
                _ => false,
            };
            if pending_space && !left_edge && !right_edge {
                kept.push(Tok::Space);
            }
            kept.push(t);
            pending_space = false;
        }
        i += 1;
    }
    assert(toks@.take(toks@.len() as int) =~= toks@);
    // Pass 2: text interleaved with required line break counts.
    let mut out = String::new();
    let mut pending: u8 = 0;
    let mut seen = false;
    let mut j: usize = 0;
    while j < kept.len()
        invariant
            0 <= j <= kept@.len(),
            (out@, pending as nat, seen) == render_state(kept@.take(j as int)),
        decreases kept@.len() - j,
    {
        let t = kept[j];
        assert(kept@.take(j + 1).drop_last() =~= kept@.take(j as int));
        let ghost st = render_state(kept@.take(j as int));
        match t {
            Tok::Atomic => {},
            Tok::Break(k) => {
                if k > pending {
                    pending = k;
                }
            },
            _ => {
                let c = match t {
                    Tok::Char(c) => c,
                    _ => ' ',
                };
                if seen {
                    let mut n: u8 = 0;
                    while n < pending
                        invariant
                            0 <= n <= pending,
                            out@ == st.0 + newlines(n as nat),
                        decreases pending - n,
                    {
                        push_char(&mut out, '\n');
                        n += 1;
                        assert(out@ =~= st.0 + newlines(n as nat));
                    }
                }
                push_char(&mut out, c);
                pending = 0;
                seen = true;
            },
        }
        j += 1;
    }
    assert(kept@.take(kept@.len() as int) =~= kept@);
    out
}


// ---------------------------------------------------------------------------------------------
// Styles
// ---------------------------------------------------------------------------------------------

/// The effective `display` of node `i`: `NoBox` when the legacy `display_none` flag is set, and
/// `Inline` for a node without a style.
pub open spec fn style_display(m: Map<usize, ComputedStyle>, i: int) -> Display {
    if m.contains_key(i as usize) {
        if m[i as usize].display_none {
            Display::NoBox
        } else {
            m[i as usize].display
        }
    } else {
        Display::Inline
    }
}

pub open spec fn style_position(m: Map<usize, ComputedStyle>, i: int) -> Position {
    if m.contains_key(i as usize) {
        m[i as usize].position
    } else {
        Position::Static
    }
}

pub open spec fn style_visibility(m: Map<usize, ComputedStyle>, i: int) -> Visibility {
    if m.contains_key(i as usize) {
        m[i as usize].visibility
    } else {
        Visibility::Visible
    }
}

fn display_of(map: &HashMap<usize, ComputedStyle>, id: NodeId) -> (r: Display)
    ensures
        r == style_display(map@, id.0 as int),
{
    match map.get(&id.0) {
        Some(c) => {
            if c.display_none {
                Display::NoBox
            } else {
                c.display
            }
        },
        None => Display::Inline,
    }
}

fn position_of(map: &HashMap<usize, ComputedStyle>, id: NodeId) -> (r: Position)
    ensures
        r == style_position(map@, id.0 as int),
{
    match map.get(&id.0) {
        Some(c) => c.position,
        None => Position::Static,
    }
}

fn visibility_of(map: &HashMap<usize, ComputedStyle>, id: NodeId) -> (r: Visibility)
    ensures
        r == style_visibility(map@, id.0 as int),
{
    match map.get(&id.0) {
        Some(c) => c.visibility,
        None => Visibility::Visible,
    }
}

/// A box with this `display`/`position` is block-level (it induces a line break around it).
pub open spec fn block_level(d: Display, p: Position) -> bool {
    ||| p == Position::Absolute || p == Position::Fixed
    ||| d == Display::Block || d == Display::Flex || d == Display::Grid || d == Display::Table
        || d == Display::TableCaption
}

fn is_block_level(display: Display, position: Position) -> (r: bool)
    ensures
        r == block_level(display, position),
{
    if position == Position::Absolute || position == Position::Fixed {
        return true;
    }
    display == Display::Block || display == Display::Flex || display == Display::Grid || display
        == Display::Table || display == Display::TableCaption
}

/// Table-internal display contexts, in which whitespace-only anonymous text is not rendered.
pub open spec fn table_internal(d: Display) -> bool {
    d == Display::Table || d == Display::TableRow || d == Display::TableRowGroup || d
        == Display::TableHeaderGroup || d == Display::TableFooterGroup || d == Display::TableColumn
        || d == Display::TableColumnGroup
}

fn is_table_internal(d: Display) -> (r: bool)
    ensures
        r == table_internal(d),
{
    d == Display::Table || d == Display::TableRow || d == Display::TableRowGroup || d
        == Display::TableHeaderGroup || d == Display::TableFooterGroup || d == Display::TableColumn
        || d == Display::TableColumnGroup
}

/// Elements whose contents never produce CSS boxes (replaced / embedded content): their
/// descendant text is not part of the rendered text.
pub open spec fn embedded_tag(t: Seq<char>) -> bool {
    ||| t == "img"@ || t == "canvas"@ || t == "iframe"@ || t == "embed"@ || t == "object"@
    ||| t == "audio"@ || t == "video"@ || t == "input"@ || t == "textarea"@
}

fn is_embedded(t: &[char]) -> (r: bool)
    ensures
        r == embedded_tag(t@),
{
    eq_str(t, "img") || eq_str(t, "canvas") || eq_str(t, "iframe") || eq_str(t, "embed") || eq_str(
        t,
        "object",
    ) || eq_str(t, "audio") || eq_str(t, "video") || eq_str(t, "input") || eq_str(t, "textarea")
}

// ---------------------------------------------------------------------------------------------
// Element helpers
// ---------------------------------------------------------------------------------------------

/// The ASCII-lower-cased tag of node `i`, if it is an element.
pub open spec fn tag_of(nodes: Seq<Node>, i: int) -> Option<Seq<char>> {
    if 0 <= i < nodes.len() {
        match nodes[i].data {
            NodeData::Element(e) => Some(lower_seq(e.tag@)),
            _ => None,
        }
    } else {
        None
    }
}

pub open spec fn is_tag(nodes: Seq<Node>, i: int, t: Seq<char>) -> bool {
    tag_of(nodes, i) == Some(t)
}

fn elem_tag(doc: &Document, id: NodeId) -> (r: Option<Vec<char>>)
    requires
        id.0 < doc@.len(),
    ensures
        match r {
            Some(t) => tag_of(doc@, id.0 as int) == Some(t@),
            None => tag_of(doc@, id.0 as int) is None,
        },
{
    match &doc.get(id).data {
        NodeData::Element(e) => Some(lower(&to_chars(e.tag.as_str()))),
        _ => None,
    }
}

fn is_elem_tag(doc: &Document, id: NodeId, tag: &str) -> (r: bool)
    requires
        id.0 < doc@.len(),
    ensures
        r == is_tag(doc@, id.0 as int, tag@),
{
    match elem_tag(doc, id) {
        Some(t) => eq_str(&t, tag),
        None => false,
    }
}

pub open spec fn html_element(nodes: Seq<Node>, i: int) -> bool {
    match nodes[i].data {
        NodeData::Element(e) => match e.namespace {
            None => true,
            Some(ns) => ns@ == "http://www.w3.org/1999/xhtml"@,
        },
        _ => false,
    }
}

/// Whether `id` is an HTML element. `innerText`/`outerText` are HTMLElement-only: they are absent
/// on SVG/MathML elements, which the parser tags with a foreign `namespace` (HTML elements carry
/// `None` or the XHTML namespace).
pub fn is_html_element(doc: &Document, id: NodeId) -> (r: bool)
    requires
        id.0 < doc@.len(),
    ensures
        r == html_element(doc@, id.0 as int),
{
    match &doc.get(id).data {
        NodeData::Element(e) => match &e.namespace {
            None => true,
            Some(ns) => eq_str(&to_chars(ns.as_str()), "http://www.w3.org/1999/xhtml"),
        },
        _ => false,
    }
}

// ---------------------------------------------------------------------------------------------
// The rendered text collection steps
// ---------------------------------------------------------------------------------------------

/// Which children a box renders.
#[derive(Clone, Copy, PartialEq, Eq, Debug, Structural)]
pub enum KidFilter {
    /// Every child, through the general collection steps.
    All,
    /// Only `<option>`/`<optgroup>` children (the boxes of a `<select>`).
    SelectItems,
    /// Only `<option>` children (the boxes of an `<optgroup>`).
    Options,
}

pub open spec fn all_ascii_ws(s: Seq<char>) -> bool {
    forall|i: int| 0 <= i < s.len() ==> is_ascii_ws(#[trigger] s[i])
}

/// The `white-space` and `text-transform` a text node inherits from its parent.
pub open spec fn text_style(nodes: Seq<Node>, m: Map<usize, ComputedStyle>, i: int) -> (WhiteSpace, TextTransform) {
    match nodes[i].parent {
        Some(p) => if m.contains_key(p.0) {
            (m[p.0].white_space, m[p.0].text_transform)
        } else {
            (WhiteSpace::Normal, TextTransform::Identity)
        },
        None => (WhiteSpace::Normal, TextTransform::Identity),
    }
}

/// The tokens of text node `i` holding `raw`: nothing when its parent is not visible, nothing for
/// whitespace-only text directly inside a table-internal box, else the transformed text under
/// the parent's `white-space`.
pub open spec fn text_toks(nodes: Seq<Node>, m: Map<usize, ComputedStyle>, i: int, raw: Seq<char>) -> Seq<Tok> {
    let parent = nodes[i].parent;
    let (ws, tt) = text_style(nodes, m, i);
    if parent is Some && style_visibility(m, parent.unwrap().0 as int) != Visibility::Visible {
        seq![]
    } else if parent is Some && table_internal(style_display(m, parent.unwrap().0 as int))
        && all_ascii_ws(raw) {
        seq![]
    } else {
        ws_tokens(transform(raw, tt), ws)
    }
}

pub open spec fn wrap_breaks(b: bool, k: u8, body: Seq<Tok>) -> Seq<Tok> {
    if b {
        seq![Tok::Break(k)] + body + seq![Tok::Break(k)]
    } else {
        body
    }
}

/// The parent of `i` lays its children out as flex or grid items (which blockifies them).
pub open spec fn blockified(nodes: Seq<Node>, m: Map<usize, ComputedStyle>, i: int) -> bool {
    match nodes[i].parent {
        Some(p) => {
            let d = style_display(m, p.0 as int);
            d == Display::Flex || d == Display::InlineFlex || d == Display::Grid || d
                == Display::InlineGrid
        },
        None => false,
    }
}

pub open spec fn summary_pred(nodes: Seq<Node>) -> spec_fn(NodeId) -> bool {
    |c: NodeId| is_tag(nodes, c.0 as int, "summary"@)
}

pub open spec fn cell_pred(m: Map<usize, ComputedStyle>) -> spec_fn(NodeId) -> bool {
    |c: NodeId| style_display(m, c.0 as int) == Display::TableCell
}

/// The last entry of `s` satisfying `p`.
pub open spec fn last_match(s: Seq<NodeId>, p: spec_fn(NodeId) -> bool) -> Option<NodeId>
    decreases s.len(),
{
    if s.len() == 0 {
        None
    } else if p(s.last()) {
        Some(s.last())
    } else {
        last_match(s.drop_last(), p)
    }
}

/// Table cell `i` is the last table-cell box among its siblings.
pub open spec fn last_cell(nodes: Seq<Node>, m: Map<usize, ComputedStyle>, i: int) -> bool {
    match nodes[i].parent {
        None => true,
        Some(p) => last_match(nodes[p.0 as int].children@, cell_pred(m)) == Some(NodeId(i as usize)),
    }
}

/// The nearest ancestor-or-self of `n` whose display is `table`, following at most `fuel`
/// parent links (as many as the arena has nodes reach the top of any chain of parent links
/// that does not loop).
pub open spec fn table_from(nodes: Seq<Node>, m: Map<usize, ComputedStyle>, n: int, fuel: nat) -> Option<NodeId>
    decreases fuel,
{
    if !(0 <= n < nodes.len()) {
        None
    } else if style_display(m, n) == Display::Table {
        Some(NodeId(n as usize))
    } else if fuel == 0 {
        None
    } else {
        match nodes[n].parent {
            Some(q) => table_from(nodes, m, q.0 as int, (fuel - 1) as nat),
            None => None,
        }
    }
}

/// The table-row boxes under `node`, in tree order, not descending into nested tables or rows.
pub open spec fn table_rows(nodes: Seq<Node>, m: Map<usize, ComputedStyle>, node: int) -> Seq<NodeId>
    decreases nodes.len() - rank(nodes, node), 1int, 0int,
{
    if 0 <= node < nodes.len() {
        rows_of_kids(nodes, m, node, nodes[node].children@.len() as int)
    } else {
        seq![]
    }
}

pub open spec fn rows_of_kids(nodes: Seq<Node>, m: Map<usize, ComputedStyle>, node: int, k: int) -> Seq<NodeId>
    decreases nodes.len() - rank(nodes, node), 0int, k,
{
    if !(0 <= node < nodes.len()) || k <= 0 || k > nodes[node].children@.len() {
        seq![]
    } else {
        let c = nodes[node].children@[k - 1];
        rows_of_kids(nodes, m, node, k - 1) + if deeper(nodes, node, c.0 as int)
            && nodes[c.0 as int].data is Element {
            let d = style_display(m, c.0 as int);
            if d == Display::TableRow {
                seq![c]
            } else if d == Display::Table {
                seq![]
            } else {
                table_rows(nodes, m, c.0 as int)
            }
        } else {
            seq![]
        }
    }
}

/// Table row `i` is the last table-row box of its nearest enclosing table (or has none).
pub open spec fn last_row(nodes: Seq<Node>, m: Map<usize, ComputedStyle>, i: int) -> bool {
    let t = match nodes[i].parent {
        Some(p) => table_from(nodes, m, p.0 as int, nodes.len()),
        None => None,
    };
    match t {
        None => true,
        Some(t) => {
            let rows = table_rows(nodes, m, t.0 as int);
            rows.len() > 0 && rows.last() == NodeId(i as usize)
        },
    }
}

pub open spec fn is_inline_formatting_root(d: Display) -> bool {
    d == Display::InlineBlock || d == Display::InlineFlex || d == Display::InlineGrid
}

/// The rendered text collection steps over a child node (Text, CDATA, element or fragment).
pub open spec fn collect_toks(nodes: Seq<Node>, m: Map<usize, ComputedStyle>, i: int) -> Seq<Tok>
    decreases nodes.len() - rank(nodes, i), 3int, 0int,
{
    if 0 <= i < nodes.len() {
        match nodes[i].data {
            NodeData::Text(t) => text_toks(nodes, m, i, t@),
            NodeData::Cdata(t) => text_toks(nodes, m, i, t@),
            NodeData::Element(_) => element_toks(nodes, m, i, false),
            NodeData::DocumentFragment => kids_toks(
                nodes,
                m,
                i,
                nodes[i].children@.len() as int,
                KidFilter::All,
            ),
            _ => seq![],
        }
    } else {
        seq![]
    }
}

/// The tokens of the first `k` children of `i` that `f` admits.
pub open spec fn kids_toks(nodes: Seq<Node>, m: Map<usize, ComputedStyle>, i: int, k: int, f: KidFilter) -> Seq<Tok>
    decreases nodes.len() - rank(nodes, i), 0int, k,
{
    if !(0 <= i < nodes.len()) || k <= 0 || k > nodes[i].children@.len() {
        seq![]
    } else {
        let c = nodes[i].children@[k - 1].0 as int;
        kids_toks(nodes, m, i, k - 1, f) + if deeper(nodes, i, c) {
            match f {
                KidFilter::All => collect_toks(nodes, m, c),
                KidFilter::SelectItems => if is_tag(nodes, c, "option"@) || is_tag(
                    nodes,
                    c,
                    "optgroup"@,
                ) {
                    element_toks(nodes, m, c, false)
                } else {
                    seq![]
                },
                KidFilter::Options => if is_tag(nodes, c, "option"@) {
                    element_toks(nodes, m, c, false)
                } else {
                    seq![]
                },
            }
        } else {
            seq![]
        }
    }
}

/// The rendered text collection steps for element `i`. `top` is true for the element the getter
/// was called on: it contributes its content but not its own breaks or atomic boundaries.
pub open spec fn element_toks(nodes: Seq<Node>, m: Map<usize, ComputedStyle>, i: int, top: bool) -> Seq<Tok>
    decreases nodes.len() - rank(nodes, i), if top { 1int } else { 2int }, 0int,
{
    if !(0 <= i < nodes.len()) {
        seq![]
    } else {
        match nodes[i].data {
            NodeData::Element(e) => {
                let tag = lower_seq(e.tag@);
                let display = style_display(m, i);
                let position = style_position(m, i);
                let n = nodes[i].children@.len() as int;
                let all = kids_toks(nodes, m, i, n, KidFilter::All);
                if style_visibility(m, i) != Visibility::Visible {
                    if !top && display == Display::NoBox {
                        seq![]
                    } else {
                        all
                    }
                } else if tag == "br"@ {
                    if !top {
                        seq![Tok::Char('\n')]
                    } else {
                        seq![]
                    }
                } else if tag == "noscript"@ || tag == "template"@ {
                    seq![]
                } else if !top && display == Display::NoBox {
                    seq![]
                } else if tag == "select"@ {
                    kids_toks(nodes, m, i, n, KidFilter::SelectItems)
                } else if tag == "optgroup"@ {
                    wrap_breaks(!top, 1, kids_toks(nodes, m, i, n, KidFilter::Options))
                } else if tag == "option"@ {
                    wrap_breaks(!top, 1, all)
                } else if tag == "details"@ {
                    let body = if attr_value(e.attrs@, "open"@) is Some {
                        all
                    } else {
                        match first_match(nodes[i].children@, summary_pred(nodes)) {
                            Some(s) => if deeper(nodes, i, s.0 as int) {
                                element_toks(nodes, m, s.0 as int, false)
                            } else {
                                seq![]
                            },
                            None => seq![],
                        }
                    };
                    wrap_breaks(!top, 1, body)
                } else if tag == "rp"@ && display == Display::Inline {
                    seq![]
                } else if embedded_tag(tag) {
                    if top {
                        seq![]
                    } else if block_level(display, position) {
                        seq![Tok::Break(1), Tok::Break(1)]
                    } else {
                        seq![Tok::Atomic, Tok::Atomic]
                    }
                } else if !top && !blockified(nodes, m, i) && tag != "p"@ && is_inline_formatting_root(
                    display,
                ) {
                    let text = collapse_spec(element_toks(nodes, m, i, true));
                    seq![Tok::Atomic] + text.map_values(|c: char| char_tok(c)) + seq![Tok::Atomic]
                } else if display == Display::TableCell {
                    all + if !top && !last_cell(nodes, m, i) {
                        seq![Tok::Char('\t')]
                    } else {
                        seq![]
                    }
                } else if display == Display::TableRow {
                    all + if !top && !last_row(nodes, m, i) {
                        seq![Tok::Char('\n')]
                    } else {
                        seq![]
                    }
                } else {
                    let block = block_level(display, position) || blockified(nodes, m, i);
                    let breaks: u8 = if tag == "p"@ {
                        2
                    } else if block {
                        1
                    } else {
                        0
                    };
                    wrap_breaks(!top && breaks > 0, breaks, all)
                }
            },
            _ => seq![],
        }
    }
}

/// An element is being rendered if it is connected to the document and neither it nor any
/// ancestor is `display:none`.
pub open spec fn rendered(nodes: Seq<Node>, m: Map<usize, ComputedStyle>, n: int) -> bool {
    rendered_within(nodes, m, n, nodes.len())
}

/// Node `n` reaches the document root within `fuel` parent links without passing a
/// `display:none` element.
pub open spec fn rendered_within(nodes: Seq<Node>, m: Map<usize, ComputedStyle>, n: int, fuel: nat) -> bool
    decreases fuel,
{
    if !(0 <= n < nodes.len()) {
        false
    } else if nodes[n].data is Document {
        true
    } else if nodes[n].data is Element && style_display(m, n) == Display::NoBox {
        false
    } else if fuel == 0 {
        false
    } else {
        match nodes[n].parent {
            Some(p) => rendered_within(nodes, m, p.0 as int, (fuel - 1) as nat),
            None => false,
        }
    }
}

/// The `innerText` getter's result for node `i`.
pub open spec fn inner_text_spec(nodes: Seq<Node>, m: Map<usize, ComputedStyle>, i: int) -> Seq<char> {
    if !rendered(nodes, m, i) {
        descendant_text(nodes, i)
    } else {
        collapse_spec(element_toks(nodes, m, i, true))
    }
}

// ---------------------------------------------------------------------------------------------
// The getter
// ---------------------------------------------------------------------------------------------

/// An element is "being rendered" if it is connected to the document and neither it nor any
/// ancestor is `display:none`.
fn is_being_rendered(doc: &Document, map: &HashMap<usize, ComputedStyle>, id: NodeId) -> (r: bool)
    requires
        doc.wf(),
        id.0 < doc@.len(),
    ensures
        r == rendered(doc@, map@, id.0 as int),
{
    let mut cur = id;
    let mut fuel = doc.len();
    loop
        invariant
            doc.wf(),
            cur.0 < doc@.len(),
            rendered(doc@, map@, id.0 as int) == rendered_within(doc@, map@, cur.0 as int, fuel as nat),
        decreases fuel,
    {
        let node = doc.get(cur);
        match &node.data {
            NodeData::Document => {
                return true;
            },
            NodeData::Element(_) => {
                if display_of(map, cur) == Display::NoBox {
                    return false;
                }
            },
            _ => {},
        }
        if fuel == 0 {
            return false;
        }
        match node.parent {
            Some(p) => {
                cur = p;
                fuel = fuel - 1;
            },
            None => {
                return false;
            },
        }
    }
}

fn all_ascii_whitespace(s: &str) -> (r: bool)
    ensures
        r == all_ascii_ws(s@),
{
    let v = to_chars(s);
    let mut i: usize = 0;
    while i < v.len()
        invariant
            v@ == s@,
            0 <= i <= v@.len(),
            forall|j: int| 0 <= j < i ==> is_ascii_ws(#[trigger] v@[j]),
        decreases v@.len() - i,
    {
        if !is_ascii_whitespace(v[i]) {
            return false;
        }
        i += 1;
    }
    true
}

/// Append the rendered tokens for a Text node, applying `white-space` and `text-transform`.
fn push_text(doc: &Document, map: &HashMap<usize, ComputedStyle>, id: NodeId, raw: &str, out: &mut Vec<Tok>)
    requires
        id.0 < doc@.len(),
    ensures
        final(out)@ == old(out)@ + text_toks(doc@, map@, id.0 as int, raw@),
{
    let parent = doc.get(id).parent;
    let (ws, tt) = match parent {
        Some(p) => match map.get(&p.0) {
            Some(cs) => (cs.white_space, cs.text_transform),
            None => (WhiteSpace::Normal, TextTransform::Identity),
        },
        None => (WhiteSpace::Normal, TextTransform::Identity),
    };
    if let Some(p) = parent {
        // Text inherits its parent's visibility: `hidden`/`collapse` text is not rendered.
        if visibility_of(map, p) != Visibility::Visible {
            assert(old(out)@ =~= old(out)@ + Seq::<Tok>::empty());
            return;
        }
        // Whitespace-only text directly inside a table-internal box generates no rendered box.
        if is_table_internal(display_of(map, p)) && all_ascii_whitespace(raw) {
            assert(old(out)@ =~= old(out)@ + Seq::<Tok>::empty());
            return;
        }
    }
    let transformed = apply_text_transform(raw, tt);
    let mut toks = text_tokens(transformed.as_str(), ws);
    out.append(&mut toks);
}

/// Append the tokens of the children of `id` that `f` admits.
fn collect_kids(doc: &Document, map: &HashMap<usize, ComputedStyle>, id: NodeId, f: KidFilter, out: &mut Vec<Tok>)
    requires
        doc.wf(),
        id.0 < doc@.len(),
    ensures
        final(out)@ == old(out)@ + kids_toks(
            doc@,
            map@,
            id.0 as int,
            doc@[id.0 as int].children@.len() as int,
            f,
        ),
    decreases doc@.len() - rank(doc@, id.0 as int), 0int, 0int,
{
    let node = doc.get(id);
    let n = node.children.len();
    let mut k: usize = 0;
    assert(old(out)@ =~= old(out)@ + kids_toks(doc@, map@, id.0 as int, 0, f));
    while k < n
        invariant
            doc.wf(),
            id.0 < doc@.len(),
            *node == doc@[id.0 as int],
            n == node.children@.len(),
            0 <= k <= n,
            out@ == old(out)@ + kids_toks(doc@, map@, id.0 as int, k as int, f),
        decreases n - k,
    {
        let c = node.children[k];
        assert(deeper(doc@, id.0 as int, c.0 as int));
        let ghost before = out@;
        match f {
            KidFilter::All => collect(doc, map, c, out),
            KidFilter::SelectItems => {
                if is_elem_tag(doc, c, "option") || is_elem_tag(doc, c, "optgroup") {
                    collect_element(doc, map, c, out, false);
                }
            },
            KidFilter::Options => {
                if is_elem_tag(doc, c, "option") {
                    collect_element(doc, map, c, out, false);
                }
            },
        }
        let ghost added = out@.skip(before.len() as int);
        assert(out@ =~= before + added);
        assert(kids_toks(doc@, map@, id.0 as int, k + 1, f) == kids_toks(
            doc@,
            map@,
            id.0 as int,
            k as int,
            f,
        ) + added);
        assert(out@ =~= old(out)@ + kids_toks(doc@, map@, id.0 as int, k + 1, f));
        k += 1;
    }
}

/// Run the rendered text collection steps over a child node, appending to `out`.
fn collect(doc: &Document, map: &HashMap<usize, ComputedStyle>, id: NodeId, out: &mut Vec<Tok>)
    requires
        doc.wf(),
        id.0 < doc@.len(),
    ensures
        final(out)@ == old(out)@ + collect_toks(doc@, map@, id.0 as int),
    decreases doc@.len() - rank(doc@, id.0 as int), 3int, 0int,
{
    match &doc.get(id).data {
        NodeData::Text(t) => push_text(doc, map, id, t.as_str(), out),
        NodeData::Cdata(t) => push_text(doc, map, id, t.as_str(), out),
        NodeData::Element(_) => collect_element(doc, map, id, out, false),
        NodeData::DocumentFragment => collect_kids(doc, map, id, KidFilter::All, out),
        _ => {
            assert(old(out)@ =~= old(out)@ + Seq::<Tok>::empty());
        },
    }
}

/// Whether `id` (a table cell) is the last table-cell box among its siblings.
fn is_last_table_cell(doc: &Document, map: &HashMap<usize, ComputedStyle>, id: NodeId) -> (r: bool)
    requires
        doc.wf(),
        id.0 < doc@.len(),
    ensures
        r == last_cell(doc@, map@, id.0 as int),
{
    match doc.get(id).parent {
        None => true,
        Some(p) => {
            let ch = &doc.get(p).children;
            let ghost pred = cell_pred(map@);
            let mut k = ch.len();
            assert(ch@.take(k as int) =~= ch@);
            while k > 0
                invariant
                    doc.wf(),
                    id.0 < doc@.len(),
                    doc@[id.0 as int].parent == Some(p),
                    p.0 < doc@.len(),
                    *ch == doc@[p.0 as int].children,
                    0 <= k <= ch@.len(),
                    pred == cell_pred(map@),
                    last_match(ch@, pred) == last_match(ch@.take(k as int), pred),
                decreases k,
            {
                let c = ch[k - 1];
                assert(ch@.take(k as int).drop_last() =~= ch@.take(k - 1));
                assert(ch@.take(k as int).last() == c);
                if display_of(map, c) == Display::TableCell {
                    return c.0 == id.0;
                }
                k -= 1;
            }
            false
        },
    }
}

/// The nearest table box at or above `n`, following at most `fuel` parent links.
fn nearest_table(doc: &Document, map: &HashMap<usize, ComputedStyle>, n: NodeId, fuel: usize) -> (r: Option<NodeId>)
    requires
        doc.wf(),
        n.0 < doc@.len(),
    ensures
        r == table_from(doc@, map@, n.0 as int, fuel as nat),
    decreases fuel,
{
    if display_of(map, n) == Display::Table {
        return Some(n);
    }
    if fuel == 0 {
        return None;
    }
    match doc.get(n).parent {
        Some(q) => nearest_table(doc, map, q, fuel - 1),
        None => None,
    }
}

/// Collect the table-row boxes under `node`, in tree order, without descending into nested
/// tables or rows.
fn collect_rows(doc: &Document, map: &HashMap<usize, ComputedStyle>, node: NodeId, rows: &mut Vec<NodeId>)
    requires
        doc.wf(),
        node.0 < doc@.len(),
    ensures
        final(rows)@ == old(rows)@ + table_rows(doc@, map@, node.0 as int),
    decreases doc@.len() - rank(doc@, node.0 as int),
{
    let nd = doc.get(node);
    let n = nd.children.len();
    let mut k: usize = 0;
    assert(old(rows)@ =~= old(rows)@ + rows_of_kids(doc@, map@, node.0 as int, 0));
    while k < n
        invariant
            doc.wf(),
            node.0 < doc@.len(),
            *nd == doc@[node.0 as int],
            n == nd.children@.len(),
            0 <= k <= n,
            rows@ == old(rows)@ + rows_of_kids(doc@, map@, node.0 as int, k as int),
        decreases n - k,
    {
        let c = nd.children[k];
        assert(deeper(doc@, node.0 as int, c.0 as int));
        let ghost before = rows@;
        let is_elem = match &doc.get(c).data {
            NodeData::Element(_) => true,
            _ => false,
        };
        if is_elem {
            let d = display_of(map, c);
            if d == Display::TableRow {
                rows.push(c);
            } else if d == Display::Table {
                // a nested table: its rows belong to it, not to us
            } else {
                collect_rows(doc, map, c, rows);
            }
        }
        let ghost added = rows@.skip(before.len() as int);
        assert(rows@ =~= before + added);
        assert(rows_of_kids(doc@, map@, node.0 as int, k + 1) == rows_of_kids(
            doc@,
            map@,
            node.0 as int,
            k as int,
        ) + added);
        assert(rows@ =~= old(rows)@ + rows_of_kids(doc@, map@, node.0 as int, k + 1));
        k += 1;
    }
}

/// Whether `id` (a table row) is the last table-row box in its nearest enclosing table.
fn is_last_table_row(doc: &Document, map: &HashMap<usize, ComputedStyle>, id: NodeId) -> (r: bool)
    requires
        doc.wf(),
        id.0 < doc@.len(),
    ensures
        r == last_row(doc@, map@, id.0 as int),
{
    let table = match doc.get(id).parent {
        Some(p) => nearest_table(doc, map, p, doc.len()),
        None => None,
    };
    let table = match table {
        Some(t) => t,
        None => {
            return true;
        },
    };
    assert(table.0 < doc@.len()) by {
        lemma_table_from_in_range(doc@, map@, doc@[id.0 as int].parent.unwrap().0 as int, doc@.len());
    }
    let mut rows: Vec<NodeId> = Vec::new();
    collect_rows(doc, map, table, &mut rows);
    assert(rows@ =~= table_rows(doc@, map@, table.0 as int));
    rows.len() > 0 && rows[rows.len() - 1].0 == id.0
}

proof fn lemma_table_from_in_range(nodes: Seq<Node>, m: Map<usize, ComputedStyle>, n: int, fuel: nat)
    ensures
        table_from(nodes, m, n, fuel) matches Some(t) ==> t.0 < nodes.len(),
    decreases fuel,
{
    if 0 <= n < nodes.len() && style_display(m, n) != Display::Table && fuel > 0 {
        if let Some(q) = nodes[n].parent {
            lemma_table_from_in_range(nodes, m, q.0 as int, (fuel - 1) as nat);
        }
    }
}

/// Find the first child of `id` that is a `<summary>` element.
fn first_summary(doc: &Document, id: NodeId) -> (r: Option<NodeId>)
    requires
        doc.wf(),
        id.0 < doc@.len(),
    ensures
        r == first_match(doc@[id.0 as int].children@, summary_pred(doc@)),
{
    let ch = &doc.get(id).children;
    let ghost pred = summary_pred(doc@);
    let mut k: usize = 0;
    assert(ch@.skip(0) =~= ch@);
    while k < ch.len()
        invariant
            doc.wf(),
            id.0 < doc@.len(),
            *ch == doc@[id.0 as int].children,
            0 <= k <= ch@.len(),
            pred == summary_pred(doc@),
            first_match(ch@, pred) == first_match(ch@.skip(k as int), pred),
        decreases ch@.len() - k,
    {
        let c = ch[k];
        assert(ch@.skip(k as int).drop_first() =~= ch@.skip(k + 1));
        assert(deeper(doc@, id.0 as int, c.0 as int));
        if is_elem_tag(doc, c, "summary") {
            return Some(c);
        }
        k += 1;
    }
    None
}

/// Append `toks` surrounded (when `b`) by a required line break of `k`.
fn push_wrapped(out: &mut Vec<Tok>, b: bool, k: u8, toks: &mut Vec<Tok>)
    ensures
        final(out)@ == old(out)@ + wrap_breaks(b, k, old(toks)@),
{
    if b {
        out.push(Tok::Break(k));
    }
    out.append(toks);
    if b {
        out.push(Tok::Break(k));
    }
    assert(final(out)@ =~= old(out)@ + wrap_breaks(b, k, old(toks)@));
}

/// The rendered text collection steps for an element. `top_level` is true for the element the
/// getter was called on: it contributes its content but not its own block-break / atomic
/// wrappers.
fn collect_element(
    doc: &Document,
    map: &HashMap<usize, ComputedStyle>,
    id: NodeId,
    out: &mut Vec<Tok>,
    top_level: bool,
)
    requires
        doc.wf(),
        id.0 < doc@.len(),
    ensures
        final(out)@ == old(out)@ + element_toks(doc@, map@, id.0 as int, top_level),
    decreases doc@.len() - rank(doc@, id.0 as int), if top_level { 1int } else { 2int }, 0int,
{
    let tag = match elem_tag(doc, id) {
        Some(t) => t,
        None => {
            assert(old(out)@ =~= old(out)@ + Seq::<Tok>::empty());
            return;
        },
    };
    let ghost nodes = doc@;
    let ghost m = map@;
    let ghost i = id.0 as int;
    let ghost n = nodes[i].children@.len() as int;
    let ghost all = kids_toks(nodes, m, i, n, KidFilter::All);
    let ghost spec = element_toks(nodes, m, i, top_level);
    let display = display_of(map, id);
    let position = position_of(map, id);

    // `visibility: hidden`/`collapse`: the element contributes no text of its own, but visible
    // descendants still show.
    if visibility_of(map, id) != Visibility::Visible {
        if !top_level && display == Display::NoBox {
            assert(old(out)@ =~= old(out)@ + spec);
            return;
        }
        collect_kids(doc, map, id, KidFilter::All, out);
        return;
    }
    // <br>: a forced line break (its own content is ignored).
    if eq_str(&tag, "br") {
        if !top_level {
            out.push(Tok::Char('\n'));
        }
        assert(out@ =~= old(out)@ + spec);
        return;
    }
    // <noscript>/<template> contents are never rendered as text.
    if eq_str(&tag, "noscript") || eq_str(&tag, "template") {
        assert(old(out)@ =~= old(out)@ + spec);
        return;
    }
    // A non-rendered descendant subtree produces nothing.
    if !top_level && display == Display::NoBox {
        assert(old(out)@ =~= old(out)@ + spec);
        return;
    }
    // <select>: an inline box whose children are only its <optgroup>/<option> boxes.
    if eq_str(&tag, "select") {
        collect_kids(doc, map, id, KidFilter::SelectItems, out);
        return;
    }
    // <optgroup>: a block box whose children are only its <option> boxes.
    if eq_str(&tag, "optgroup") {
        let mut body: Vec<Tok> = Vec::new();
        collect_kids(doc, map, id, KidFilter::Options, &mut body);
        assert(body@ =~= kids_toks(nodes, m, i, n, KidFilter::Options));
        push_wrapped(out, !top_level, 1, &mut body);
        return;
    }
    // <option>: a block box with normal children.
    if eq_str(&tag, "option") {
        let mut body: Vec<Tok> = Vec::new();
        collect_kids(doc, map, id, KidFilter::All, &mut body);
        assert(body@ =~= all);
        push_wrapped(out, !top_level, 1, &mut body);
        return;
    }
    // <details>: a block box; when closed, only the first <summary> is rendered.
    if eq_str(&tag, "details") {
        let open = match &doc.get(id).data {
            NodeData::Element(e) => get_attr(&e.attrs, "open").is_some(),
            _ => false,
        };
        let mut body: Vec<Tok> = Vec::new();
        if open {
            collect_kids(doc, map, id, KidFilter::All, &mut body);
        } else {
            match first_summary(doc, id) {
                Some(sm) => {
                    proof {
                        lemma_first_match_in(nodes[i].children@, summary_pred(nodes));
                    }
                    assert(deeper(nodes, i, sm.0 as int));
                    collect_element(doc, map, sm, &mut body, false);
                },
                None => {},
            }
        }
        assert(body@ =~= Seq::<Tok>::empty() + body@);
        push_wrapped(out, !top_level, 1, &mut body);
        return;
    }
    // <rp> is `display:none` by default: rendered only if author-styled non-inline.
    if eq_str(&tag, "rp") && display == Display::Inline {
        assert(old(out)@ =~= old(out)@ + spec);
        return;
    }
    // Replaced / embedded content: descendant text is not rendered.
    if is_embedded(&tag) {
        if !top_level {
            if is_block_level(display, position) {
                out.push(Tok::Break(1));
                out.push(Tok::Break(1));
            } else {
                out.push(Tok::Atomic);
                out.push(Tok::Atomic);
            }
        }
        assert(out@ =~= old(out)@ + spec);
        return;
    }
    let blockified = match doc.get(id).parent {
        Some(p) => {
            let pd = display_of(map, p);
            pd == Display::Flex || pd == Display::InlineFlex || pd == Display::Grid || pd
                == Display::InlineGrid
        },
        None => false,
    };
    // Atomic inline (inline-block / inline-flex / inline-grid): its content forms an independent
    // formatting context and is opaque to the outer whitespace collapse. <p> is excluded: it
    // always contributes blank lines.
    if !top_level && !blockified && !eq_str(&tag, "p") && (display == Display::InlineBlock
        || display == Display::InlineFlex || display == Display::InlineGrid) {
        let mut inner: Vec<Tok> = Vec::new();
        collect_element(doc, map, id, &mut inner, true);
        assert(inner@ =~= element_toks(nodes, m, i, true));
        let text = collapse(inner);
        let chars = to_chars(text.as_str());
        let ghost f = |c: char| char_tok(c);
        out.push(Tok::Atomic);
        let ghost start = out@;
        let mut j: usize = 0;
        while j < chars.len()
            invariant
                0 <= j <= chars@.len(),
                f == (|c: char| char_tok(c)),
                out@ == start + chars@.take(j as int).map_values(f),
            decreases chars@.len() - j,
        {
            out.push(Tok::Char(chars[j]));
            assert(chars@.take(j + 1).map_values(f) =~= chars@.take(j as int).map_values(f).push(
                f(chars@[j as int]),
            ));
            j += 1;
        }
        assert(chars@.take(chars@.len() as int) =~= chars@);
        out.push(Tok::Atomic);
        assert(out@ =~= old(out)@ + spec);
        return;
    }
    // Table cell: separated from the following cell in its row by a tab.
    if display == Display::TableCell {
        collect_kids(doc, map, id, KidFilter::All, out);
        let ghost mid = out@;
        if !top_level && !is_last_table_cell(doc, map, id) {
            out.push(Tok::Char('\t'));
        }
        assert(out@ =~= old(out)@ + spec);
        return;
    }
    // Table row: separated from the following row by a newline.
    if display == Display::TableRow {
        collect_kids(doc, map, id, KidFilter::All, out);
        if !top_level && !is_last_table_row(doc, map, id) {
            out.push(Tok::Char('\n'));
        }
        assert(out@ =~= old(out)@ + spec);
        return;
    }
    // Generic flow content: <p> contributes a blank line (2) around it, other block-level boxes a
    // single line (1), inline content no break.
    let block = is_block_level(display, position) || blockified;
    let breaks: u8 = if eq_str(&tag, "p") {
        2
    } else if block {
        1
    } else {
        0
    };
    let mut body: Vec<Tok> = Vec::new();
    collect_kids(doc, map, id, KidFilter::All, &mut body);
    assert(body@ =~= all);
    push_wrapped(out, !top_level && breaks > 0, breaks, &mut body);
}

proof fn lemma_first_match_in(s: Seq<NodeId>, p: spec_fn(NodeId) -> bool)
    ensures
        first_match(s, p) matches Some(x) ==> s.contains(x),
    decreases s.len(),
{
    if s.len() > 0 && !p(s[0]) {
        lemma_first_match_in(s.drop_first(), p);
        if let Some(x) = first_match(s.drop_first(), p) {
            let j = choose|j: int| 0 <= j < s.drop_first().len() && s.drop_first()[j] == x;
            assert(s[j + 1] == x);
        }
    } else if s.len() > 0 {
        assert(s[0] == s[0]);
    }
}

/// The `innerText`/`outerText` getter for node `id` (identical for both attributes). A node that
/// is not being rendered yields its descendant text verbatim.
pub fn inner_text(doc: &Document, map: &HashMap<usize, ComputedStyle>, id: NodeId) -> (r: String)
    requires
        doc.wf(),
        id.0 < doc@.len(),
    ensures
        r@ == inner_text_spec(doc@, map@, id.0 as int),
{
    if !is_being_rendered(doc, map, id) {
        let mut out = String::new();
        push_descendant_text(doc, id, &mut out);
        return out;
    }
    let mut toks: Vec<Tok> = Vec::new();
    collect_element(doc, map, id, &mut toks, true);
    assert(toks@ =~= element_toks(doc@, map@, id.0 as int, true));
    collapse(toks)
}

// ---------------------------------------------------------------------------------------------
// Setters: the rendered text fragment.
// ---------------------------------------------------------------------------------------------

/// Append the pending text run (if any) as a Text piece.
pub open spec fn flush(done: Seq<Option<Seq<char>>>, cur: Seq<char>) -> Seq<Option<Seq<char>>> {
    if cur.len() > 0 {
        done.push(Some(cur))
    } else {
        done
    }
}

/// The rendered text fragment over a prefix: the finished pieces (`Some(text)` for a Text node,
/// `None` for a `<br>`), the pending text run, and whether the last character was a CR (so that
/// a following LF belongs to the same line break).
pub open spec fn frag_state(s: Seq<char>) -> (Seq<Option<Seq<char>>>, Seq<char>, bool)
    decreases s.len(),
{
    if s.len() == 0 {
        (seq![], seq![], false)
    } else {
        let (done, cur, after_cr) = frag_state(s.drop_last());
        let c = s.last();
        if c == '\n' && after_cr {
            (done, cur, false)
        } else if c == '\r' || c == '\n' {
            (flush(done, cur).push(None), seq![], c == '\r')
        } else {
            (done, cur.push(c), false)
        }
    }
}

/// The pieces of the rendered text fragment of `s`: runs of text become Text nodes and each
/// line break (CR, LF, or CRLF) becomes a `<br>`.
pub open spec fn fragment(s: Seq<char>) -> Seq<Option<Seq<char>>> {
    let (done, cur, _) = frag_state(s);
    flush(done, cur)
}

/// A `<br>` element with no attributes in the HTML namespace.
pub open spec fn is_br_node(d: NodeData) -> bool {
    d matches NodeData::Element(e) && e.tag@ == "br"@ && e.attrs@.len() == 0 && e.namespace is None
}

/// `d` is the node a fragment piece stands for.
pub open spec fn frag_node(p: Option<Seq<char>>, d: NodeData) -> bool {
    match p {
        Some(t) => d matches NodeData::Text(x) && x@ == t,
        None => is_br_node(d),
    }
}

pub open spec fn frag_nodes(ps: Seq<Option<Seq<char>>>, v: Seq<NodeData>) -> bool {
    &&& ps.len() == v.len()
    &&& forall|j: int| 0 <= j < ps.len() ==> frag_node(#[trigger] ps[j], v[j])
}

pub open spec fn is_line_break(c: char) -> bool {
    c == '\r' || c == '\n'
}

fn br_element() -> (r: NodeData)
    ensures
        is_br_node(r),
{
    NodeData::Element(ElementData { tag: string_of("br"), attrs: Vec::new(), namespace: None })
}

/// Build the nodes of the rendered text fragment for `input`.
pub fn rendered_text_fragment(input: &str) -> (r: Vec<NodeData>)
    ensures
        frag_nodes(fragment(input@), r@),
{
    let chars = to_chars(input);
    let n = chars.len();
    let mut out: Vec<NodeData> = Vec::new();
    let mut i: usize = 0;
    while i < n
        invariant
            chars@ == input@,
            n == chars@.len(),
            0 <= i <= n,
            frag_nodes(flush(frag_state(chars@.take(i as int)).0, frag_state(chars@.take(i as int)).1), out@),
            i < n ==> frag_state(chars@.take(i as int)).1 == Seq::<char>::empty(),
            i < n && frag_state(chars@.take(i as int)).2 ==> chars@[i as int] != '\n',
        decreases n - i,
    {
        let start = i;
        let ghost st0 = frag_state(chars@.take(start as int));
        while i < n && chars[i] != '\r' && chars[i] != '\n'
            invariant
                chars@ == input@,
                n == chars@.len(),
                start <= i <= n,
                st0 == frag_state(chars@.take(start as int)),
                frag_state(chars@.take(i as int)).0 == st0.0,
                frag_state(chars@.take(i as int)).1 == chars@.subrange(start as int, i as int),
                i > start ==> !frag_state(chars@.take(i as int)).2,
                i == start ==> frag_state(chars@.take(i as int)).2 == st0.2,
                st0.1 == Seq::<char>::empty(),
            decreases n - i,
        {
            assert(chars@.take(i + 1).drop_last() =~= chars@.take(i as int));
            assert(chars@.subrange(start as int, i + 1) =~= chars@.subrange(start as int, i as int).push(
                chars@[i as int],
            ));
            i += 1;
        }
        let ghost st = frag_state(chars@.take(i as int));
        if i > start {
            let piece = slice_vec(&chars, start, i);
            out.push(NodeData::Text(string_from(&piece)));
        }
        assert(frag_nodes(flush(st.0, st.1), out@)) by {
            assert(flush(st.0, st.1) =~= if i > start { st0.0.push(Some(st.1)) } else { st0.0 });
        }
        if i < n {
            let c = chars[i];
            let ghost i0 = i as int;
            let ghost before = out@;
            assert(chars@.take(i0 + 1).drop_last() =~= chars@.take(i0));
            assert(chars@.take(i0 + 1).last() == c);
            assert(i == start ==> !(c == '\n' && st.2));
            let ghost st1 = frag_state(chars@.take(i0 + 1));
            assert(st1 == (flush(st.0, st.1).push(None), Seq::<char>::empty(), c == '\r'));
            if c == '\r' && i + 1 < n && chars[i + 1] == '\n' {
                assert(chars@.take(i0 + 2).drop_last() =~= chars@.take(i0 + 1));
                assert(chars@.take(i0 + 2).last() == '\n');
                i += 2;
            } else {
                i += 1;
            }
            out.push(br_element());
            let ghost st2 = frag_state(chars@.take(i as int));
            assert(st2.0 == st1.0 && st2.1 == st1.1);
            assert(flush(st2.0, st2.1) =~= flush(st.0, st.1).push(None));
            assert forall|j: int| 0 <= j < out@.len() implies frag_node(
                #[trigger] flush(st2.0, st2.1)[j],
                out@[j],
            ) by {
                if j < before.len() {
                    assert(out@[j] == before[j]);
                    assert(flush(st.0, st.1)[j] == flush(st2.0, st2.1)[j]);
                }
            }
        }
    }
    assert(chars@.take(n as int) =~= chars@);
    out
}

/// The `innerText` setter: replace the children of `id` with the rendered text fragment of
/// `text` (the old children are detached).
pub fn set_inner_text(doc: &mut Document, id: NodeId, text: &str)
    requires
        old(doc).wf(),
        id.0 < old(doc)@.len(),
    ensures
        final(doc).wf(),
        children_replaced(old(doc)@, final(doc)@, id.0 as int, fragment(text@).len()),
        forall|j: int|
            0 <= j < fragment(text@).len() ==> frag_node(
                #[trigger] fragment(text@)[j],
                final(doc)@[old(doc)@.len() + j].data,
            ),
{
    let ghost d0 = doc@;
    detach_children(doc, id);
    assert(doc@[id.0 as int].children@ =~= Seq::new(0, |j: int| NodeId((d0.len() + j) as usize)));
    let frag = rendered_text_fragment(text);
    let ghost fr = fragment(text@);
    for nd in it: frag
        invariant
            doc.wf(),
            id.0 < d0.len(),
            it.seq() == frag@,
            frag_nodes(fr, frag@),
            children_replaced(d0, doc@, id.0 as int, it.index() as nat),
            forall|j: int| 0 <= j < it.index() ==> frag_node(#[trigger] fr[j], doc@[d0.len() + j].data),
    {
        let ghost before = doc@;
        let ghost k = it.index();
        assert(frag_node(fr[k as int], nd));
        let nid = doc.append_child(id, nd);
        proof {
            lemma_children_replaced_push(d0, before, doc@, id.0 as int, k as nat);
            assert forall|j: int| 0 <= j < k + 1 implies frag_node(#[trigger] fr[j], doc@[d0.len() + j].data) by {
                if j < k {
                    assert(doc@[d0.len() + j] == before[d0.len() + j]);
                }
            }
        }
    }
}

// ---------------------------------------------------------------------------------------------
// Laws of the rendered text fragment
// ---------------------------------------------------------------------------------------------

/// The text a fragment piece reads back as: a Text node's data, or a newline for a `<br>`.
pub open spec fn piece_text(p: Option<Seq<char>>) -> Seq<char> {
    match p {
        Some(t) => t,
        None => seq!['\n'],
    }
}

pub open spec fn fragment_text(ps: Seq<Option<Seq<char>>>) -> Seq<char> {
    ps.map_values(|p: Option<Seq<char>>| piece_text(p)).flatten()
}

/// `s` with every CRLF and every lone CR turned into LF, and whether it ended in a CR.
pub open spec fn normalize_state(s: Seq<char>) -> (Seq<char>, bool)
    decreases s.len(),
{
    if s.len() == 0 {
        (seq![], false)
    } else {
        let (out, after_cr) = normalize_state(s.drop_last());
        let c = s.last();
        if c == '\n' && after_cr {
            (out, false)
        } else if c == '\r' {
            (out.push('\n'), true)
        } else {
            (out.push(c), false)
        }
    }
}

pub open spec fn normalize_newlines(s: Seq<char>) -> Seq<char> {
    normalize_state(s).0
}

pub open spec fn no_line_break(t: Seq<char>) -> bool {
    forall|k: int| 0 <= k < t.len() ==> !is_line_break(#[trigger] t[k])
}

/// Finished pieces: every Text piece is non-empty, holds no line break, and is followed by a
/// `<br>`.
pub open spec fn pieces_shape(ps: Seq<Option<Seq<char>>>) -> bool {
    forall|j: int|
        0 <= j < ps.len() && (#[trigger] ps[j]) is Some ==> {
            &&& ps[j].unwrap().len() > 0
            &&& no_line_break(ps[j].unwrap())
            &&& j + 1 < ps.len()
            &&& ps[j + 1] is None
        }
}

proof fn lemma_fragment_text_push(ps: Seq<Option<Seq<char>>>, p: Option<Seq<char>>)
    ensures
        fragment_text(ps.push(p)) == fragment_text(ps) + piece_text(p),
{
    let f = |p: Option<Seq<char>>| piece_text(p);
    assert(ps.push(p).map_values(f) =~= ps.map_values(f).push(f(p)));
    ps.map_values(f).lemma_flatten_push(f(p));
}

proof fn lemma_frag_state(s: Seq<char>)
    ensures
        fragment_text(frag_state(s).0) + frag_state(s).1 == normalize_state(s).0,
        frag_state(s).2 == normalize_state(s).1,
        no_line_break(frag_state(s).1),
        pieces_shape(frag_state(s).0),
        frag_state(s).0.len() > 0 ==> frag_state(s).0.last() is None,
        frag_state(s).2 ==> frag_state(s).1.len() == 0,
    decreases s.len(),
{
    if s.len() == 0 {
        assert(fragment_text(Seq::<Option<Seq<char>>>::empty()) =~= Seq::<char>::empty());
    } else {
        lemma_frag_state(s.drop_last());
        let (done, cur, after_cr) = frag_state(s.drop_last());
        let c = s.last();
        if c == '\n' && after_cr {
        } else if c == '\r' || c == '\n' {
            let fl = flush(done, cur);
            lemma_fragment_text_push(fl, None);
            if cur.len() > 0 {
                lemma_fragment_text_push(done, Some(cur));
                assert(fragment_text(fl) == fragment_text(done) + cur);
            }
            assert(fragment_text(fl.push(None)) =~= fragment_text(done) + cur + seq!['\n']);
            assert forall|j: int|
                0 <= j < fl.push(None).len() && (#[trigger] fl.push(None)[j]) is Some implies {
                &&& fl.push(None)[j].unwrap().len() > 0
                &&& no_line_break(fl.push(None)[j].unwrap())
                &&& j + 1 < fl.push(None).len()
                &&& fl.push(None)[j + 1] is None
            } by {
                if j < done.len() {
                    assert(fl.push(None)[j] == done[j]);
                    assert(fl.push(None)[j + 1] == if j + 1 < done.len() { done[j + 1] } else {
                        fl.push(None)[j + 1]
                    });
                }
            }
        } else {
            assert(cur.push(c).drop_last() =~= cur);
            assert(fragment_text(done) + cur.push(c) =~= (fragment_text(done) + cur).push(c));
        }
    }
}

/// Reading the rendered text fragment back (the data of each Text node, a newline for each
/// `<br>`) gives the input with every CR and CRLF line break turned into LF.
pub proof fn law_fragment_reads_back(s: Seq<char>)
    ensures
        fragment_text(fragment(s)) == normalize_newlines(s),
{
    lemma_frag_state(s);
    let (done, cur, _) = frag_state(s);
    if cur.len() > 0 {
        lemma_fragment_text_push(done, Some(cur));
    }
}

/// Every Text node of the rendered text fragment is non-empty and holds no line break, and no
/// two Text nodes are adjacent (a `<br>` always separates them).
pub proof fn law_fragment_text_runs(s: Seq<char>)
    ensures
        forall|j: int|
            0 <= j < fragment(s).len() && (#[trigger] fragment(s)[j]) is Some ==> {
                &&& fragment(s)[j].unwrap().len() > 0
                &&& no_line_break(fragment(s)[j].unwrap())
                &&& (j + 1 < fragment(s).len() ==> fragment(s)[j + 1] is None)
            },
{
    lemma_frag_state(s);
    let (done, cur, _) = frag_state(s);
    let f = fragment(s);
    assert forall|j: int| 0 <= j < f.len() && (#[trigger] f[j]) is Some implies {
        &&& f[j].unwrap().len() > 0
        &&& no_line_break(f[j].unwrap())
        &&& (j + 1 < f.len() ==> f[j + 1] is None)
    } by {
        if j < done.len() {
            assert(f[j] == done[j]);
            if j + 1 < done.len() {
                assert(f[j + 1] == done[j + 1]);
            }
        }
    }
}

// ---------------------------------------------------------------------------------------------
// Setters: outerText
// ---------------------------------------------------------------------------------------------

/// What the `outerText` setter reads and changes of a node: the data of a Text node, and the
/// tree links.
pub struct NodeShape {
    pub text: Option<Seq<char>>,
    pub parent: Option<NodeId>,
    pub children: Seq<NodeId>,
}

pub open spec fn text_of(d: NodeData) -> Option<Seq<char>> {
    match d {
        NodeData::Text(t) => Some(t@),
        _ => None,
    }
}

pub open spec fn shape(n: Node) -> NodeShape {
    NodeShape { text: text_of(n.data), parent: n.parent, children: n.children@ }
}

pub open spec fn shapes(nodes: Seq<Node>) -> Seq<NodeShape> {
    nodes.map_values(|n: Node| shape(n))
}

/// The position of the first occurrence of `x` in `s`.
pub open spec fn first_index(s: Seq<NodeId>, x: NodeId) -> Option<int>
    decreases s.len(),
{
    if s.len() == 0 {
        None
    } else if s[0] == x {
        Some(0)
    } else {
        match first_index(s.drop_first(), x) {
            Some(k) => Some(k + 1),
            None => None,
        }
    }
}

pub(crate) proof fn lemma_first_index(s: Seq<NodeId>, x: NodeId)
    ensures
        first_index(s, x) matches Some(k) ==> 0 <= k < s.len() && s[k] == x && forall|j: int|
            0 <= j < k ==> s[j] != x,
        first_index(s, x) is None ==> forall|j: int| 0 <= j < s.len() ==> s[j] != x,
    decreases s.len(),
{
    if s.len() > 0 && s[0] != x {
        lemma_first_index(s.drop_first(), x);
        assert forall|j: int| 0 < j < s.len() implies s[j] == s.drop_first()[j - 1] by {}
    }
}

/// Where `x` first occurs in `v`.
pub(crate) fn index_in(v: &Vec<NodeId>, x: NodeId) -> (r: Option<usize>)
    ensures
        match r {
            Some(k) => first_index(v@, x) == Some(k as int),
            None => first_index(v@, x) is None,
        },
{
    let mut k: usize = 0;
    assert(v@.skip(0) =~= v@);
    while k < v.len()
        invariant
            0 <= k <= v@.len(),
            first_index(v@, x) == match first_index(v@.skip(k as int), x) {
                Some(j) => Some(j + k),
                None => None,
            },
        decreases v@.len() - k,
    {
        assert(v@.skip(k as int).drop_first() =~= v@.skip(k + 1));
        if v[k].0 == x.0 {
            return Some(k);
        }
        k += 1;
    }
    None
}

/// `merge_text` over shapes: when `source` is a Text node, its data is appended to `target` (if
/// that is a Text node), and `source` is removed from its parent.
pub open spec fn merge_model(v: Seq<NodeShape>, target: int, source: int) -> Seq<NodeShape> {
    match v[source].text {
        None => v,
        Some(src) => {
            let v1 = match v[target].text {
                Some(t) => v.update(target, NodeShape { text: Some(t + src), ..v[target] }),
                None => v,
            };
            let v2 = match v1[source].parent {
                Some(p) => if 0 <= p.0 < v1.len() {
                    match first_index(v1[p.0 as int].children, NodeId(source as usize)) {
                        Some(pos) => v1.update(
                            p.0 as int,
                            NodeShape { children: v1[p.0 as int].children.remove(pos), ..v1[p.0 as int] },
                        ),
                        None => v1,
                    }
                } else {
                    v1
                },
                None => v1,
            };
            v2.update(source, NodeShape { parent: None, ..v2[source] })
        },
    }
}

/// The arena keeps its length and the payload of every non-Text node.
pub open spec fn same_non_text(d0: Seq<Node>, d1: Seq<Node>) -> bool {
    forall|i: int| 0 <= i < d0.len() && !(d0[i].data is Text) ==> #[trigger] d1[i].data == d0[i].data
}

proof fn lemma_shapes_update(nodes: Seq<Node>, i: int, n: Node)
    requires
        0 <= i < nodes.len(),
    ensures
        shapes(nodes.update(i, n)) == shapes(nodes).update(i, shape(n)),
{
    assert(shapes(nodes.update(i, n)) =~= shapes(nodes).update(i, shape(n)));
}

/// Only payloads changed, or parent links were cut, and the root is still the root.
proof fn lemma_links_same(d0: Seq<Node>, d1: Seq<Node>)
    requires
        doc_wf(d0),
        d1.len() == d0.len(),
        d1[0].data is Document,
        forall|i: int|
            0 <= i < d1.len() ==> (#[trigger] d1[i]).children == d0[i].children && (d1[i].parent
                == d0[i].parent || d1[i].parent is None) && (d1[i].data == d0[i].data
                || d1[i].data is Text),
    ensures
        doc_wf(d1),
{
    assert forall|i: int, k: int|
        0 <= i < d1.len() && 0 <= k < d1[i].children@.len() implies d0[i].children@.contains(
        #[trigger] d1[i].children@[k],
    ) by {
        assert(d0[i].children@[k] == d1[i].children@[k]);
    }
    lemma_wf_fewer_links(d0, d1);
}

fn is_text_node(doc: &Document, id: NodeId) -> (r: bool)
    requires
        id.0 < doc@.len(),
    ensures
        r == (doc@[id.0 as int].data is Text),
{
    match doc.get(id).data {
        NodeData::Text(_) => true,
        _ => false,
    }
}

/// Append `source`'s data onto `target` (both Text nodes) and remove `source` from its parent.
fn merge_text(doc: &mut Document, target: NodeId, source: NodeId)
    requires
        old(doc).wf(),
        target.0 < old(doc)@.len(),
        source.0 < old(doc)@.len(),
    ensures
        final(doc).wf(),
        final(doc)@.len() == old(doc)@.len(),
        same_non_text(old(doc)@, final(doc)@),
        shapes(final(doc)@) == merge_model(shapes(old(doc)@), target.0 as int, source.0 as int),
{
    let ghost v = shapes(doc@);
    let src = match &doc.get(source).data {
        NodeData::Text(t) => t.clone(),
        _ => {
            return;
        },
    };
    let ghost d0 = doc@;
    let node = doc.get_mut(target);
    if let NodeData::Text(t) = &mut node.data {
        push_str(t, src.as_str());
    }
    let ghost d1 = doc@;
    proof {
        if d0[target.0 as int].data is Text {
            lemma_shapes_update(d0, target.0 as int, d1[target.0 as int]);
        } else {
            assert(d1 =~= d0);
        }
        lemma_links_same(d0, d1);
    }
    if let Some(p) = doc.get(source).parent {
        assert(p.0 < doc@.len());
        let pos = index_in(&doc.get(p).children, source);
        if let Some(pos) = pos {
            proof {
                lemma_first_index(d1[p.0 as int].children@, source);
            }
            let ghost before = doc@;
            let pn = doc.get_mut(p);
            pn.children.remove(pos);
            proof {
                lemma_shapes_update(before, p.0 as int, doc@[p.0 as int]);
                let d = doc@;
                assert forall|i: int, k: int|
                    0 <= i < d.len() && 0 <= k < d[i].children@.len() implies before[i].children@.contains(
                    #[trigger] d[i].children@[k],
                ) by {
                    if i == p.0 {
                        if k < pos {
                            assert(before[i].children@[k] == d[i].children@[k]);
                        } else {
                            assert(before[i].children@[k + 1] == d[i].children@[k]);
                        }
                    } else {
                        assert(before[i].children@[k] == d[i].children@[k]);
                    }
                }
                lemma_wf_fewer_links(before, d);
            }
        }
    }
    let ghost d2 = doc@;
    let sn = doc.get_mut(source);
    sn.parent = None;
    proof {
        lemma_shapes_update(d2, source.0 as int, doc@[source.0 as int]);
        lemma_links_same(d2, doc@);
    }
}

/// The pieces `outerText` inserts: the rendered text fragment, or one empty Text node when the
/// fragment is empty.
pub open spec fn outer_fragment(s: Seq<char>) -> Seq<Option<Seq<char>>> {
    if fragment(s).len() == 0 {
        seq![Some(Seq::<char>::empty())]
    } else {
        fragment(s)
    }
}

pub open spec fn piece_shape(p: Option<Seq<char>>, parent: NodeId) -> NodeShape {
    NodeShape { text: p, parent: Some(parent), children: seq![] }
}

/// Where `outerText` replaces `id`: its parent and the first position of `id` among the
/// parent's children (`None` when `id` has no parent or the parent does not list it).
pub open spec fn outer_target(v: Seq<NodeShape>, id: int) -> Option<(NodeId, int)> {
    match v[id].parent {
        Some(p) => match first_index(v[p.0 as int].children, NodeId(id as usize)) {
            Some(k) => Some((p, k)),
            None => None,
        },
        None => None,
    }
}

/// Merging the previous sibling with what follows it, when both are Text nodes.
pub open spec fn merge_prev(v: Seq<NodeShape>, p: NodeId, prev: NodeId) -> Seq<NodeShape> {
    if v[prev.0 as int].text is Some {
        let c = v[p.0 as int].children;
        match first_index(c, prev) {
            Some(k) => if k + 1 < c.len() && v[c[k + 1].0 as int].text is Some {
                merge_model(v, prev.0 as int, c[k + 1].0 as int)
            } else {
                v
            },
            None => v,
        }
    } else {
        v
    }
}

/// The `outerText` setter over shapes: the fragment's nodes are appended to the arena as
/// children of `id`'s parent, take `id`'s place in the parent's child list (`id` loses its
/// parent), then the last of them merges with a following Text sibling, and the previous Text
/// sibling merges with what now follows it.
pub open spec fn outer_model(v: Seq<NodeShape>, id: int, fr: Seq<Option<Seq<char>>>) -> Seq<NodeShape> {
    match outer_target(v, id) {
        None => v,
        Some((p, k)) => {
            let c = v[p.0 as int].children;
            let l = v.len();
            let f = fr.len();
            let new_ids = Seq::new(f, |j: int| NodeId((l + j) as usize));
            let v1 = v + Seq::new(f, |j: int| piece_shape(fr[j], p));
            let v2 = v1.update(id, NodeShape { parent: None, ..v1[id] });
            let v3 = v2.update(
                p.0 as int,
                NodeShape { children: c.take(k) + new_ids + c.skip(k + 1), ..v2[p.0 as int] },
            );
            let last = l + f - 1;
            let v4 = if k + 1 < c.len() && v3[c[k + 1].0 as int].text is Some && v3[last].text is Some {
                merge_model(v3, last, c[k + 1].0 as int)
            } else {
                v3
            };
            if k > 0 {
                merge_prev(v4, p, c[k - 1])
            } else {
                v4
            }
        },
    }
}

/// Allocate the nodes of `frag` at the end of the arena, in order, each parented by `parent`
/// (but not yet listed among its children).
fn alloc_fragment(doc: &mut Document, parent: NodeId, frag: Vec<NodeData>, fr: Ghost<Seq<Option<Seq<char>>>>) -> (ids: Vec<NodeId>)
    requires
        old(doc).wf(),
        parent.0 < old(doc)@.len(),
        frag_nodes(fr@, frag@),
    ensures
        final(doc)@.len() == old(doc)@.len() + fr@.len(),
        final(doc)@.len() <= usize::MAX,
        final(doc)@.take(old(doc)@.len() as int) == old(doc)@,
        ids@ == Seq::new(fr@.len(), |j: int| NodeId((old(doc)@.len() + j) as usize)),
        forall|j: int|
            0 <= j < fr@.len() ==> shape(#[trigger] final(doc)@[old(doc)@.len() + j]) == piece_shape(
                fr@[j],
                parent,
            ) && frag_node(fr@[j], final(doc)@[old(doc)@.len() + j].data),
{
    let ghost d0 = doc@;
    let ghost l = d0.len();
    let ghost f = fr@.len();
    let mut ids: Vec<NodeId> = Vec::new();
    for nd in it: frag
        invariant
            it.seq() == frag@,
            frag_nodes(fr@, frag@),
            f == fr@.len(),
            l == d0.len(),
            doc@.len() == l + it.index(),
            doc@.len() <= usize::MAX,
            doc@.take(l as int) == d0,
            ids@ == Seq::new(it.index() as nat, |j: int| NodeId((l + j) as usize)),
            forall|j: int|
                0 <= j < it.index() ==> shape(#[trigger] doc@[l + j]) == piece_shape(fr@[j], parent)
                    && frag_node(fr@[j], doc@[l + j].data),
    {
        let ghost before = doc@;
        let ghost k = it.index();
        assert(frag_node(fr@[k as int], nd));
        let nid = doc.alloc_node(nd, Some(parent));
        ids.push(nid);
        proof {
            assert(doc@.take(l as int) =~= before.take(l as int)) by {
                assert forall|i: int| 0 <= i < l implies doc@[i] == before[i] by {
                    assert(doc@.take(before.len() as int)[i] == before[i]);
                }
            }
            assert(ids@ =~= Seq::new((k + 1) as nat, |j: int| NodeId((l + j) as usize)));
            assert forall|j: int| 0 <= j < k + 1 implies shape(#[trigger] doc@[l + j]) == piece_shape(
                fr@[j],
                parent,
            ) && frag_node(fr@[j], doc@[l + j].data) by {
                if j < k {
                    assert(doc@[l + j] == doc@.take(before.len() as int)[l + j]);
                } else {
                    assert(doc@[l + j].children@ =~= Seq::<NodeId>::empty());
                }
            }
        }
    }
    ids
}

/// `c` with the entry at `k` replaced by `ids`.
fn splice_one(c: &Vec<NodeId>, k: usize, ids: &Vec<NodeId>) -> (r: Vec<NodeId>)
    requires
        k < c@.len(),
    ensures
        r@ == c@.take(k as int) + ids@ + c@.skip(k + 1),
{
    let mut nc: Vec<NodeId> = Vec::new();
    let mut j: usize = 0;
    while j < k
        invariant
            k < c@.len(),
            0 <= j <= k,
            nc@ == c@.take(j as int),
        decreases k - j,
    {
        nc.push(c[j]);
        j += 1;
        assert(nc@ =~= c@.take(j as int));
    }
    let mut j: usize = 0;
    while j < ids.len()
        invariant
            0 <= j <= ids@.len(),
            nc@ == c@.take(k as int) + ids@.take(j as int),
        decreases ids@.len() - j,
    {
        nc.push(ids[j]);
        j += 1;
        assert(nc@ =~= c@.take(k as int) + ids@.take(j as int));
    }
    assert(ids@.take(ids@.len() as int) =~= ids@);
    let n = c.len();
    let mut j: usize = k + 1;
    while j < n
        invariant
            k < c@.len(),
            n == c@.len(),
            k + 1 <= j <= c@.len(),
            nc@ == c@.take(k as int) + ids@ + c@.subrange(k + 1, j as int),
        decreases c@.len() - j,
    {
        nc.push(c[j]);
        j += 1;
        assert(nc@ =~= c@.take(k as int) + ids@ + c@.subrange(k + 1, j as int));
    }
    assert(c@.subrange(k + 1, c@.len() as int) =~= c@.skip(k + 1));
    nc
}

/// Detach `id` from `parent` and list the freshly allocated nodes `l..l + f` in its place at
/// position `k`.
fn replace_child(doc: &mut Document, parent: NodeId, id: NodeId, k: usize, ids: &Vec<NodeId>, l: Ghost<nat>)
    requires
        doc_wf(old(doc)@.take(l@ as int)),
        l@ <= old(doc)@.len(),
        parent.0 < l@,
        id.0 < l@,
        k < old(doc)@[parent.0 as int].children@.len(),
        old(doc)@[parent.0 as int].children@[k as int] == id,
        ids@ == Seq::new((old(doc)@.len() - l@) as nat, |j: int| NodeId((l@ + j) as usize)),
        forall|i: int|
            l@ <= i < old(doc)@.len() ==> (#[trigger] old(doc)@[i]).parent == Some(parent)
                && old(doc)@[i].children@.len() == 0 && data_ok(old(doc)@[i].data),
        old(doc)@.len() <= usize::MAX,
    ensures
        final(doc).wf(),
        final(doc)@.len() == old(doc)@.len(),
        shapes(final(doc)@) == shapes(old(doc)@).update(
            id.0 as int,
            NodeShape { parent: None, ..shapes(old(doc)@)[id.0 as int] },
        ).update(
            parent.0 as int,
            NodeShape {
                children: old(doc)@[parent.0 as int].children@.take(k as int) + ids@ + old(
                    doc,
                )@[parent.0 as int].children@.skip(k + 1),
                ..shapes(old(doc)@)[parent.0 as int]
            },
        ),
        forall|i: int| 0 <= i < old(doc)@.len() ==> (#[trigger] final(doc)@[i]).data == old(doc)@[i].data,
{
    let ghost d0 = doc@;
    let ghost c = d0[parent.0 as int].children@;
    let ghost base = d0.take(l@ as int);
    let en = doc.get_mut(id);
    en.parent = None;
    let ghost d1 = doc@;
    proof {
        lemma_shapes_update(d0, id.0 as int, d1[id.0 as int]);
    }
    let nc = splice_one(&doc.get(parent).children, k, ids);
    let pn = doc.get_mut(parent);
    pn.children = nc;
    let ghost d2 = doc@;
    proof {
        lemma_shapes_update(d1, parent.0 as int, d2[parent.0 as int]);
        assert(base[0] == d0[0]);
        lemma_wf_depth(base);
        let p = parent.0 as int;
        let w = Seq::new(d2.len(), |i: int| if i < l@ { rank(base, i) } else { rank(base, p) + 1 });
        assert forall|i: int, j: int|
            0 <= i < d2.len() && 0 <= j < d2[i].children@.len() implies {
                let x = (#[trigger] d2[i].children@[j]).0 as int;
                0 <= x < d2.len() && w[x] == w[i] + 1
            } by {
            if i == p {
                let x = d2[i].children@[j];
                let f = ids@.len() as int;
                if j < k {
                    assert(x == c[j]);
                    assert(base[i].children@[j] == c[j]);
                } else if j < k + f {
                    assert(x == ids@[j - k]);
                } else {
                    assert(x == c[j - f + 1]);
                    assert(base[i].children@[j - f + 1] == c[j - f + 1]);
                }
            } else if i >= l@ {
                assert(d1[i] == d0[i]);
                assert(d2[i] == d1[i]);
            } else {
                assert(d2[i].children == d0[i].children);
                assert(base[i] == d0[i]);
                assert(base[i].children@[j] == d2[i].children@[j]);
            }
        }
        assert forall|i: int| 0 <= i < w.len() implies #[trigger] w[i] < d2.len() by {
            if i < l@ {
                assert(rank_seq(base)[i] == rank(base, i));
            }
            assert(rank_seq(base)[p] == rank(base, p));
        }
        assert forall|i: int| 0 <= i < d2.len() && (#[trigger] d2[i].parent) is Some implies d2[i].parent.unwrap().0
            < d2.len() by {
            if i < l@ && i != id.0 {
                assert(base[i] == d0[i]);
            }
        }
        assert forall|i: int| 0 <= i < d2.len() implies data_ok(#[trigger] d2[i].data) by {
            assert(d2[i].data == d0[i].data);
            if i < l@ {
                assert(base[i] == d0[i]);
            }
        }
        assert(depth_ok(d2, w));
        lemma_wf_from_depth(d2, w);
    }
}

/// The `outerText` setter: replace `id` itself with the rendered text fragment of `text`, then
/// merge the boundary nodes with adjacent Text siblings. Returns `false` (changing nothing) if
/// `id` has no parent that lists it; the caller then throws `NoModificationAllowedError`.
#[verifier::rlimit(50)]
pub fn set_outer_text(doc: &mut Document, id: NodeId, text: &str) -> (r: bool)
    requires
        old(doc).wf(),
        id.0 < old(doc)@.len(),
    ensures
        final(doc).wf(),
        r == outer_target(shapes(old(doc)@), id.0 as int) is Some,
        !r ==> final(doc)@ == old(doc)@,
        r ==> final(doc)@.len() == old(doc)@.len() + outer_fragment(text@).len(),
        same_non_text(old(doc)@, final(doc)@),
        shapes(final(doc)@) == outer_model(shapes(old(doc)@), id.0 as int, outer_fragment(text@)),
        r ==> forall|j: int|
            0 <= j < outer_fragment(text@).len() && (#[trigger] outer_fragment(text@)[j]) is None
                ==> is_br_node(final(doc)@[old(doc)@.len() + j].data),
{
    let ghost d0 = doc@;
    let ghost v = shapes(d0);
    let parent = match doc.get(id).parent {
        Some(p) => p,
        None => {
            return false;
        },
    };
    assert(parent.0 < d0.len());
    assert(v[id.0 as int] == shape(d0[id.0 as int]));
    assert(v[parent.0 as int] == shape(d0[parent.0 as int]));
    let idx = match index_in(&doc.get(parent).children, id) {
        Some(i) => i,
        None => {
            return false;
        },
    };
    proof {
        lemma_first_index(d0[parent.0 as int].children@, id);
    }
    let ghost c = d0[parent.0 as int].children@;
    let clen = doc.get(parent).children.len();
    let prev = if idx > 0 {
        Some(doc.get(parent).children[idx - 1])
    } else {
        None
    };
    let next = if idx + 1 < clen {
        Some(doc.get(parent).children[idx + 1])
    } else {
        None
    };
    let mut frag = rendered_text_fragment(text);
    if frag.len() == 0 {
        frag.push(NodeData::Text(String::new()));
    }
    let ghost fr = outer_fragment(text@);
    assert(frag_nodes(fr, frag@));
    let ghost l = d0.len();
    let ghost f = fr.len();
    let new_ids = alloc_fragment(doc, parent, frag, Ghost(fr));
    let ghost d1 = doc@;
    proof {
        assert(shapes(d1) =~= v + Seq::new(f, |j: int| piece_shape(fr[j], parent))) by {
            assert forall|i: int| 0 <= i < d1.len() implies shapes(d1)[i] == (v + Seq::new(
                f,
                |j: int| piece_shape(fr[j], parent),
            ))[i] by {
                if i < l {
                    assert(d1[i] == d1.take(l as int)[i]);
                } else {
                    assert(shape(d1[l + (i - l)]) == piece_shape(fr[i - l], parent));
                }
            }
        }
        assert(d1[parent.0 as int] == d1.take(l as int)[parent.0 as int]);
        assert forall|i: int| l <= i < d1.len() implies (#[trigger] d1[i]).parent == Some(parent)
            && d1[i].children@.len() == 0 && data_ok(d1[i].data) by {
            assert(shape(d1[l + (i - l)]) == piece_shape(fr[i - l], parent));
            assert(frag_node(fr[i - l], d1[l + (i - l)].data));
        }
    }
    replace_child(doc, parent, id, idx, &new_ids, Ghost(l));
    let ghost d3 = doc@;
    proof {
        assert forall|i: int| 0 <= i < d0.len() && !(d0[i].data is Text) implies #[trigger] d3[i].data
            == d0[i].data by {
            assert(d1[i] == d1.take(l as int)[i]);
        }
    }
    // Merge the last fragment node with a following Text sibling, then the previous Text sibling
    // with what now follows it.
    let last = new_ids[new_ids.len() - 1];
    if let Some(next_id) = next {
        if is_text_node(doc, next_id) {
            if is_text_node(doc, last) {
                merge_text(doc, last, next_id);
            }
        }
    }
    let ghost d4 = doc@;
    if let Some(prev_id) = prev {
        if is_text_node(doc, prev_id) {
            let pidx = index_in(&doc.get(parent).children, prev_id);
            if let Some(pidx) = pidx {
                proof {
                    lemma_first_index(d4[parent.0 as int].children@, prev_id);
                }
                let plen = doc.get(parent).children.len();
                if pidx + 1 < plen {
                    let sib = doc.get(parent).children[pidx + 1];
                    if is_text_node(doc, sib) {
                        merge_text(doc, prev_id, sib);
                    }
                }
            }
        }
    }
    true
}


/// An element that is not being rendered (detached, or under `display: none`) reads the same
/// through `innerText` as through `textContent`.
pub proof fn law_unrendered_inner_text_is_text_content(nodes: Seq<Node>, m: Map<usize, ComputedStyle>, id: int)
    requires
        0 <= id < nodes.len(),
        nodes[id].data is Element,
        !rendered(nodes, m, id),
    ensures
        inner_text_spec(nodes, m, id) == spec_text_content(nodes, id),
{
}

} // verus!
