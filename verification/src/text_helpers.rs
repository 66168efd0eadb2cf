//! Plain-text extraction helpers for diagnostics (the page's visible text).

use vstd::prelude::*;
use crate::text::{is_ascii_ws, to_chars, push_char, push_str, seq_eq};
use crate::dom::{Document, Node, NodeData, NodeId, str_views, rank, deeper};

verus! {

broadcast use vstd::string::group_string_axioms;

/// Whitespace collapsing over a prefix: the text so far, whether a space is pending, and whether
/// the output is at the start of a line.
pub open spec fn collapse_state(s: Seq<char>) -> (Seq<char>, bool, bool)
    decreases s.len(),
{
    if s.len() == 0 {
        (seq![], false, true)
    } else {
        let (out, pending, at_start) = collapse_state(s.drop_last());
        let ch = s.last();
        if ch == '\n' {
            (if !(out.len() > 0 && out.last() == '\n') && out.len() > 0 {
                out.push('\n')
            } else {
                out
            }, false, true)
        } else if is_ascii_ws(ch) {
            (out, true, at_start)
        } else {
            ((if pending && !at_start {
                out.push(' ')
            } else {
                out
            }).push(ch), false, false)
        }
    }
}

/// `s` without its trailing newlines.
pub open spec fn drop_trailing_newlines(s: Seq<char>) -> Seq<char>
    decreases s.len(),
{
    if s.len() > 0 && s.last() == '\n' {
        drop_trailing_newlines(s.drop_last())
    } else {
        s
    }
}

pub open spec fn collapsed(s: Seq<char>) -> Seq<char> {
    drop_trailing_newlines(collapse_state(s).0)
}

/// Collapse runs of ASCII whitespace into single spaces, but keep `\n` (paragraph breaks, at most
/// one in a row and never first). Spaces at the start of a line are dropped, and so are the
/// trailing newlines.
pub fn collapse_whitespace(s: &str) -> (r: String)
    ensures
        r@ == collapsed(s@),
{
    let v = to_chars(s);
    let mut out: Vec<char> = Vec::new();
    let mut pending_space = false;
    let mut at_line_start = true;
    let mut i: usize = 0;
    while i < v.len()
        invariant
            v@ == s@,
            0 <= i <= v@.len(),
            (out@, pending_space, at_line_start) == collapse_state(v@.take(i as int)),
        decreases v@.len() - i,
    {
        let ch = v[i];
        assert(v@.take(i + 1).drop_last() =~= v@.take(i as int));
        if ch == '\n' {
            let n = out.len();
            if !(n > 0 && out[n - 1] == '\n') && n > 0 {
                out.push('\n');
            }
            pending_space = false;
            at_line_start = true;
        } else if ch == ' ' || ch == '\t' || ch == '\u{0C}' || ch == '\r' {
            pending_space = true;
        } else {
            if pending_space && !at_line_start {
                out.push(' ');
            }
            pending_space = false;
            at_line_start = false;
            out.push(ch);
        }
        i += 1;
    }
    assert(v@.take(v@.len() as int) =~= v@);
    // Trim the trailing newlines.
    let mut n = out.len();
    assert(out@.take(n as int) =~= out@);
    while n > 0 && out[n - 1] == '\n'
        invariant
            n <= out@.len(),
            drop_trailing_newlines(out@) == drop_trailing_newlines(out@.take(n as int)),
        decreases n,
    {
        assert(out@.take(n as int).drop_last() =~= out@.take(n - 1));
        n -= 1;
    }
    let mut r = String::new();
    let mut k: usize = 0;
    while k < n
        invariant
            n <= out@.len(),
            0 <= k <= n,
            r@ == out@.take(k as int),
        decreases n - k,
    {
        push_char(&mut r, out[k]);
        k += 1;
        assert(r@ =~= out@.take(k as int));
    }
    assert(drop_trailing_newlines(out@.take(n as int)) == out@.take(n as int)) by {
        if n > 0 {
            assert(out@.take(n as int).last() == out@[n - 1]);
        }
    }
    r
}


// ---------------------------------------------------------------------------------------------
// What collapsed text looks like
// ---------------------------------------------------------------------------------------------

/// Two characters that collapsed text never has side by side: any two of space and newline.
pub open spec fn gap_pair(a: char, b: char) -> bool {
    (a == ' ' || a == '\n') && (b == ' ' || b == '\n')
}

/// Text in collapsed form: its only whitespace is single spaces and single newlines, never next
/// to each other, and it neither starts nor ends with either.
pub open spec fn tidy(t: Seq<char>) -> bool {
    &&& forall|k: int| 0 <= k < t.len() ==> (#[trigger] is_ascii_ws(t[k]) ==> t[k] == ' ' || t[k] == '\n')
    &&& forall|k: int, m: int| 0 <= k && m == k + 1 && m < t.len() ==> !gap_pair(#[trigger] t[k], #[trigger] t[m])
    &&& t.len() > 0 ==> t[0] != ' ' && t[0] != '\n'
    &&& t.len() > 0 ==> t.last() != ' ' && t.last() != '\n'
}

/// What the collapsing state looks like after any input.
spec fn state_ok(st: (Seq<char>, bool, bool)) -> bool {
    let (out, pending, at_start) = st;
    &&& forall|k: int| 0 <= k < out.len() ==> (#[trigger] is_ascii_ws(out[k]) ==> out[k] == ' ' || out[k] == '\n')
    &&& forall|k: int, m: int| 0 <= k && m == k + 1 && m < out.len() ==> !gap_pair(#[trigger] out[k], #[trigger] out[m])
    &&& out.len() > 0 ==> out[0] != ' ' && out[0] != '\n'
    &&& out.len() > 0 ==> out.last() != ' '
    &&& at_start == (out.len() == 0 || out.last() == '\n')
}

proof fn lemma_state_ok(s: Seq<char>)
    ensures
        state_ok(collapse_state(s)),
    decreases s.len(),
{
    if s.len() > 0 {
        lemma_state_ok(s.drop_last());
        let (out, pending, at_start) = collapse_state(s.drop_last());
        let ch = s.last();
        let r = collapse_state(s).0;
        if ch == '\n' {
            if !(out.len() > 0 && out.last() == '\n') && out.len() > 0 {
                assert(r == out.push('\n'));
                assert forall|k: int, m: int| 0 <= k && m == k + 1 && m < r.len() implies !gap_pair(
                    #[trigger] r[k],
                    #[trigger] r[m],
                ) by {
                    if m < out.len() {
                        assert(r[k] == out[k] && r[m] == out[m]);
                    } else {
                        assert(r[k] == out.last());
                    }
                }
                assert forall|k: int| 0 <= k < r.len() && #[trigger] is_ascii_ws(r[k]) implies (r[k] == ' '
                    || r[k] == '\n') by {
                    if k < out.len() {
                        assert(r[k] == out[k]);
                    }
                }
            }
        } else if is_ascii_ws(ch) {
        } else {
            let o1 = if pending && !at_start { out.push(' ') } else { out };
            assert(r == o1.push(ch));
            assert(o1.len() > 0 ==> o1[0] != ' ' && o1[0] != '\n') by {
                if pending && !at_start {
                    assert(out.len() > 0);
                    assert(o1[0] == out[0]);
                }
            }
            assert forall|k: int| 0 <= k < o1.len() && #[trigger] is_ascii_ws(o1[k]) implies (o1[k] == ' '
                || o1[k] == '\n') by {
                if k < out.len() {
                    assert(o1[k] == out[k]);
                }
            }
            assert forall|k: int, m: int| 0 <= k && m == k + 1 && m < o1.len() implies !gap_pair(
                #[trigger] o1[k],
                #[trigger] o1[m],
            ) by {
                if m < out.len() {
                    assert(o1[k] == out[k] && o1[m] == out[m]);
                } else {
                    assert(o1[k] == out.last());
                }
            }
            assert forall|k: int| 0 <= k < r.len() && #[trigger] is_ascii_ws(r[k]) implies (r[k] == ' '
                || r[k] == '\n') by {
                if k < o1.len() {
                    assert(r[k] == o1[k]);
                }
            }
            assert forall|k: int, m: int| 0 <= k && m == k + 1 && m < r.len() implies !gap_pair(
                #[trigger] r[k],
                #[trigger] r[m],
            ) by {
                if m < o1.len() {
                    assert(r[k] == o1[k] && r[m] == o1[m]);
                }
            }
            assert(r.len() > 0 ==> r[0] != ' ' && r[0] != '\n') by {
                if o1.len() > 0 {
                    assert(r[0] == o1[0]);
                }
            }
        }
    }
}

/// The collapsed form of any text is tidy.
proof fn lemma_collapsed_tidy(s: Seq<char>)
    ensures
        tidy(collapsed(s)),
{
    lemma_state_ok(s);
    let out = collapse_state(s).0;
    if out.len() > 0 && out.last() == '\n' {
        let t = out.drop_last();
        assert(out.len() >= 2);
        assert(t.len() > 0 ==> t.last() != '\n' && t.last() != ' ') by {
            assert(t.last() == out[out.len() - 2]);
            assert(!gap_pair(out[out.len() - 2], out[out.len() - 1]));
        }
        assert(drop_trailing_newlines(t) == t);
        assert(collapsed(s) == t);
        assert forall|k: int| 0 <= k < t.len() && #[trigger] is_ascii_ws(t[k]) implies (t[k] == ' ' || t[k]
            == '\n') by {
            assert(t[k] == out[k]);
        }
        assert forall|k: int, m: int| 0 <= k && m == k + 1 && m < t.len() implies !gap_pair(
            #[trigger] t[k],
            #[trigger] t[m],
        ) by {
            assert(t[k] == out[k] && t[m] == out[m]);
        }
        assert(t.len() > 0 ==> t[0] == out[0]);
    } else {
        assert(drop_trailing_newlines(out) == out);
    }
}

/// The collapsing state after a prefix of tidy text: the prefix itself, with a final space
/// held back as pending.
spec fn tidy_state(p: Seq<char>) -> (Seq<char>, bool, bool) {
    if p.len() > 0 && p.last() == ' ' {
        (p.drop_last(), true, false)
    } else {
        (p, false, p.len() == 0 || p.last() == '\n')
    }
}

proof fn lemma_tidy_prefix(t: Seq<char>, n: int)
    requires
        tidy(t),
        0 <= n <= t.len(),
    ensures
        collapse_state(t.take(n)) == tidy_state(t.take(n)),
    decreases n,
{
    if n > 0 {
        lemma_tidy_prefix(t, n - 1);
        let p = t.take(n);
        let q = t.take(n - 1);
        assert(p.drop_last() =~= q);
        let c = t[n - 1];
        assert(p.last() == c);
        if n >= 2 {
            assert(q.last() == t[n - 2]);
            assert(!gap_pair(t[n - 2], t[n - 1]));
        }
        if c == '\n' {
            assert(n >= 2);
            assert(q.push('\n') =~= p);
        } else if c == ' ' {
            assert(n >= 2);
        } else {
            assert(!is_ascii_ws(c));
            if q.len() > 0 && q.last() == ' ' {
                assert(q.drop_last().push(' ').push(c) =~= p);
            } else {
                assert(q.push(c) =~= p);
            }
        }
    }
}

/// Collapsing whitespace leaves text in tidy form (single spaces and single line breaks, none at
/// either end or next to each other), and collapsing again changes nothing.
pub proof fn law_collapse_whitespace_idempotent(s: Seq<char>)
    ensures
        tidy(collapsed(s)),
        collapsed(collapsed(s)) == collapsed(s),
{
    lemma_collapsed_tidy(s);
    let t = collapsed(s);
    lemma_tidy_prefix(t, t.len() as int);
    assert(t.take(t.len() as int) =~= t);
    if t.len() > 0 {
        assert(t.last() != ' ' && t.last() != '\n');
    }
    assert(collapse_state(t).0 == t);
    assert(drop_trailing_newlines(t) == t);
}


// ---------------------------------------------------------------------------------------------
// Visible text of a document
// ---------------------------------------------------------------------------------------------

/// The visible text of the subtree of `id`: Text and CDATA data in document order; an element
/// whose tag is in `skip` contributes nothing, and one whose tag is in `block` is wrapped in line
/// breaks; comments, doctypes and processing instructions contribute nothing.
pub open spec fn visible_text(nodes: Seq<Node>, id: int, skip: Seq<Seq<char>>, block: Seq<Seq<char>>) -> Seq<char>
    decreases nodes.len() - rank(nodes, id), 1int, 0int,
{
    if 0 <= id < nodes.len() {
        match nodes[id].data {
            NodeData::Text(t) => t@,
            NodeData::Cdata(t) => t@,
            NodeData::Element(e) => if skip.contains(e.tag@) {
                seq![]
            } else {
                let inner = children_visible(nodes, id, nodes[id].children@.len() as int, skip, block);
                if block.contains(e.tag@) {
                    seq!['\n'] + inner + seq!['\n']
                } else {
                    inner
                }
            },
            NodeData::Document | NodeData::DocumentFragment => children_visible(
                nodes,
                id,
                nodes[id].children@.len() as int,
                skip,
                block,
            ),
            _ => seq![],
        }
    } else {
        seq![]
    }
}

/// The visible text of the first `k` children of `id`, concatenated.
pub open spec fn children_visible(
    nodes: Seq<Node>,
    id: int,
    k: int,
    skip: Seq<Seq<char>>,
    block: Seq<Seq<char>>,
) -> Seq<char>
    decreases nodes.len() - rank(nodes, id), 0int, k,
{
    if !(0 <= id < nodes.len()) || k <= 0 || k > nodes[id].children@.len() {
        seq![]
    } else {
        let c = nodes[id].children@[k - 1].0 as int;
        children_visible(nodes, id, k - 1, skip, block) + if deeper(nodes, id, c) {
            visible_text(nodes, c, skip, block)
        } else {
            seq![]
        }
    }
}

fn has_tag(list: &Vec<String>, tag: &str) -> (r: bool)
    ensures
        r == str_views(list@).contains(tag@),
{
    let t = to_chars(tag);
    let mut i: usize = 0;
    while i < list.len()
        invariant
            t@ == tag@,
            0 <= i <= list@.len(),
            forall|j: int| 0 <= j < i ==> list@[j]@ != tag@,
        decreases list@.len() - i,
    {
        if seq_eq(&to_chars(list[i].as_str()), &t) {
            assert(str_views(list@)[i as int] == tag@);
            return true;
        }
        i += 1;
    }
    assert forall|j: int| 0 <= j < str_views(list@).len() implies str_views(list@)[j] != tag@ by {
        assert(str_views(list@)[j] == list@[j]@);
    }
    false
}

/// Append the visible text of the subtree of `id` to `out`: elements tagged in `skip_tags` are
/// left out with their subtrees, and elements tagged in `block_tags` start and end a line.
pub fn collect_text(
    doc: &Document,
    id: NodeId,
    out: &mut String,
    skip_tags: &Vec<String>,
    block_tags: &Vec<String>,
)
    requires
        doc.wf(),
        id.0 < doc@.len(),
    ensures
        final(out)@ == old(out)@ + visible_text(
            doc@,
            id.0 as int,
            str_views(skip_tags@),
            str_views(block_tags@),
        ),
    decreases doc@.len() - rank(doc@, id.0 as int),
{
    let ghost skip = str_views(skip_tags@);
    let ghost block = str_views(block_tags@);
    let node = doc.get(id);
    let mut wrap = false;
    match &node.data {
        NodeData::Text(t) => {
            push_str(out, t.as_str());
            return;
        },
        NodeData::Cdata(t) => {
            push_str(out, t.as_str());
            return;
        },
        NodeData::Element(e) => {
            if has_tag(skip_tags, e.tag.as_str()) {
                return;
            }
            wrap = has_tag(block_tags, e.tag.as_str());
        },
        NodeData::Document | NodeData::DocumentFragment => {},
        _ => {
            return;
        },
    }
    let ghost start = out@;
    if wrap {
        push_char(out, '\n');
    }
    let ghost base = out@;
    let n = node.children.len();
    let mut k: usize = 0;
    while k < n
        invariant
            doc.wf(),
            id.0 < doc@.len(),
            *node == doc@[id.0 as int],
            n == node.children@.len(),
            skip == str_views(skip_tags@),
            block == str_views(block_tags@),
            0 <= k <= n,
            out@ == base + children_visible(doc@, id.0 as int, k as int, skip, block),
        decreases n - k,
    {
        let c = node.children[k];
        assert(deeper(doc@, id.0 as int, c.0 as int));
        collect_text(doc, c, out, skip_tags, block_tags);
        k += 1;
    }
    if wrap {
        push_char(out, '\n');
    }
}


/// The characters of `s` that are not ASCII whitespace, in order.
pub open spec fn non_ws_chars(s: Seq<char>) -> Seq<char>
    decreases s.len(),
{
    if s.len() == 0 {
        seq![]
    } else {
        non_ws_chars(s.drop_last()) + if is_ascii_ws(s.last()) {
            seq![]
        } else {
            seq![s.last()]
        }
    }
}

proof fn lemma_state_keeps_chars(s: Seq<char>)
    ensures
        non_ws_chars(collapse_state(s).0) == non_ws_chars(s),
    decreases s.len(),
{
    if s.len() > 0 {
        lemma_state_keeps_chars(s.drop_last());
        let (out, pending, at_start) = collapse_state(s.drop_last());
        let ch = s.last();
        let r = collapse_state(s).0;
        if is_ascii_ws(ch) {
            assert(non_ws_chars(s) =~= non_ws_chars(s.drop_last()));
            if ch == '\n' && !(out.len() > 0 && out.last() == '\n') && out.len() > 0 {
                assert(r.drop_last() =~= out);
                assert(r.last() == '\n');
                assert(non_ws_chars(r) =~= non_ws_chars(out));
            } else {
                assert(r == out);
            }
        } else {
            assert(non_ws_chars(s) =~= non_ws_chars(s.drop_last()) + seq![ch]);
            let o1 = if pending && !at_start { out.push(' ') } else { out };
            assert(r == o1.push(ch));
            assert(r.drop_last() =~= o1);
            if pending && !at_start {
                assert(o1.drop_last() =~= out);
                assert(non_ws_chars(o1) =~= non_ws_chars(out));
            }
            assert(non_ws_chars(r) =~= non_ws_chars(o1) + seq![ch]);
        }
    }
}

proof fn lemma_drop_newlines_keeps_chars(s: Seq<char>)
    ensures
        non_ws_chars(drop_trailing_newlines(s)) == non_ws_chars(s),
    decreases s.len(),
{
    if s.len() > 0 && s.last() == '\n' {
        lemma_drop_newlines_keeps_chars(s.drop_last());
    }
}

/// Collapsing whitespace keeps every character that is not ASCII whitespace, in order, and
/// adds none: only whitespace is removed, merged or turned into a single space or line break.
pub proof fn law_collapse_keeps_text(s: Seq<char>)
    ensures
        non_ws_chars(collapsed(s)) == non_ws_chars(s),
{
    lemma_state_keeps_chars(s);
    lemma_drop_newlines_keeps_chars(collapse_state(s).0);
}

} // verus!
