//! DOM conveniences used by the script bindings: `textContent`, `innerHTML` serialization,
//! and depth-first element lookups.

use vstd::prelude::*;
use crate::dom::{
    Document, Node, NodeData, NodeId, ElementData, attr_value, subtree, children_subtrees,
    descendant_text, children_text, first_match, lemma_first_match_concat, doc_wf, class_list,
    str_views, same_data, data_ok, rank, deeper, lemma_wf_fewer_links,
};
use crate::text::{push_str, push_char, to_chars, lower, seq_eq, lower_seq, string_of, eq_ignore_case};

verus! {

broadcast use vstd::string::group_string_axioms;

// ---------------------------------------------------------------------------------------------
// textContent
// ---------------------------------------------------------------------------------------------

/// Append the descendant text of `id` (Text and CDATA data, document order) to `out`.
pub fn push_descendant_text(doc: &Document, id: NodeId, out: &mut String)
    requires
        doc.wf(),
        id.0 < doc@.len(),
    ensures
        final(out)@ == old(out)@ + descendant_text(doc@, id.0 as int),
    decreases doc@.len() - rank(doc@, id.0 as int),
{
    let node = doc.get(id);
    match &node.data {
        NodeData::Text(t) => push_str(out, t.as_str()),
        NodeData::Cdata(t) => push_str(out, t.as_str()),
        _ => {
            let n = node.children.len();
            let mut k: usize = 0;
            while k < n
                invariant
                    doc.wf(),
                    id.0 < doc@.len(),
                    *node == doc@[id.0 as int],
                    n == node.children@.len(),
                    !(node.data is Text) && !(node.data is Cdata),
                    0 <= k <= n,
                    out@ == old(out)@ + children_text(doc@, id.0 as int, k as int),
                decreases n - k,
            {
                let c = node.children[k];
                assert(deeper(doc@, id.0 as int, c.0 as int));
                push_descendant_text(doc, c, out);
                k += 1;
            }
        },
    }
}

/// The DOM `textContent` getter: a Text/Comment/CDATA/processing-instruction node's own data;
/// for anything else the concatenation of all descendant Text (and CDATA) data in tree order.
pub open spec fn spec_text_content(nodes: Seq<Node>, id: int) -> Seq<char> {
    match nodes[id].data {
        NodeData::Text(t) => t@,
        NodeData::Comment(c) => c@,
        NodeData::Cdata(c) => c@,
        NodeData::ProcessingInstruction(p) => p.data@,
        _ => descendant_text(nodes, id),
    }
}

/// Concatenate every descendant `Text` node under `id`, in document order.
pub fn text_content(doc: &Document, id: NodeId) -> (r: String)
    requires
        doc.wf(),
        id.0 < doc@.len(),
    ensures
        r@ == spec_text_content(doc@, id.0 as int),
{
    match &doc.get(id).data {
        NodeData::Text(t) => {
            return t.clone();
        },
        NodeData::Comment(c) => {
            return c.clone();
        },
        NodeData::Cdata(c) => {
            return c.clone();
        },
        NodeData::ProcessingInstruction(p) => {
            return p.data.clone();
        },
        _ => {},
    }
    let mut out = String::new();
    push_descendant_text(doc, id, &mut out);
    out
}

/// Changing one node's payload, but not its links, keeps a document well formed (as long as the
/// root stays a document root).
proof fn lemma_wf_same_links(d0: Seq<Node>, d1: Seq<Node>, id: int)
    requires
        doc_wf(d0),
        0 < id < d0.len(),
        d1.len() == d0.len(),
        forall|i: int| 0 <= i < d0.len() && i != id ==> #[trigger] d1[i] == d0[i],
        d1[id].parent == d0[id].parent,
        d1[id].children == d0[id].children,
        data_ok(d1[id].data),
    ensures
        doc_wf(d1),
{
    assert(d1[0] == d0[0]);
    assert forall|i: int| 0 <= i < d1.len() implies (#[trigger] d1[i]).parent == d0[i].parent || d1[i].parent is None by {
        if i != id {
            assert(d1[i] == d0[i]);
        }
    }
    assert forall|i: int, k: int|
        0 <= i < d1.len() && 0 <= k < d1[i].children@.len() implies d0[i].children@.contains(
        #[trigger] d1[i].children@[k],
    ) by {
        if i != id {
            assert(d1[i] == d0[i]);
        }
        assert(d0[i].children@[k] == d1[i].children@[k]);
    }
    assert forall|i: int| 0 <= i < d1.len() implies (#[trigger] d1[i]).data == d0[i].data || data_ok(d1[i].data) by {
        if i != id {
            assert(d1[i] == d0[i]);
        }
    }
    lemma_wf_fewer_links(d0, d1);
}

/// After detaching the children of `id` from `d0`: every other node keeps its payload and its
/// children, and loses its parent link exactly when it was a child of `id`.
pub open spec fn detached_from(d0: Seq<Node>, d1: Seq<Node>, id: int) -> bool {
    &&& d1.len() == d0.len()
    &&& d1[id].data == d0[id].data
    &&& d1[id].parent == d0[id].parent
    &&& d1[id].children@.len() == 0
    &&& forall|i: int|
        0 <= i < d0.len() && i != id ==> {
            &&& (#[trigger] d1[i]).data == d0[i].data
            &&& d1[i].children == d0[i].children
            &&& d1[i].parent == if d0[id].children@.contains(NodeId(i as usize)) {
                None
            } else {
                d0[i].parent
            }
        }
}

/// `d1` is `d0` with the children of `id` detached and replaced by `k` fresh childless nodes,
/// appended at the end of the arena in order and parented by `id`.
pub open spec fn children_replaced(d0: Seq<Node>, d1: Seq<Node>, id: int, k: nat) -> bool {
    &&& d1.len() == d0.len() + k
    &&& d1[id].data == d0[id].data
    &&& d1[id].parent == d0[id].parent
    &&& d1[id].children@ == Seq::new(k, |j: int| NodeId((d0.len() + j) as usize))
    &&& forall|i: int|
        0 <= i < d0.len() && i != id ==> {
            &&& (#[trigger] d1[i]).data == d0[i].data
            &&& d1[i].children == d0[i].children
            &&& d1[i].parent == if d0[id].children@.contains(NodeId(i as usize)) {
                None
            } else {
                d0[i].parent
            }
        }
    &&& forall|j: int|
        0 <= j < k ==> (#[trigger] d1[d0.len() + j]).parent == Some(NodeId(id as usize))
            && d1[d0.len() + j].children@.len() == 0
}

/// Appending one more child to a document whose children of `id` were replaced by `k` nodes
/// gives one whose children of `id` are replaced by `k + 1` nodes.
pub proof fn lemma_children_replaced_push(d0: Seq<Node>, d1: Seq<Node>, d2: Seq<Node>, id: int, k: nat)
    requires
        0 <= id < d0.len(),
        children_replaced(d0, d1, id, k),
        d2.len() == d1.len() + 1,
        forall|i: int| 0 <= i < d1.len() && i != id ==> #[trigger] d2[i] == d1[i],
        d2[id].data == d1[id].data,
        d2[id].parent == d1[id].parent,
        d2[id].children@ == d1[id].children@.push(NodeId(d1.len() as usize)),
        d2[d1.len() as int].parent == Some(NodeId(id as usize)),
        d2[d1.len() as int].children@.len() == 0,
    ensures
        children_replaced(d0, d2, id, k + 1),
{
    assert(d2[id].children@ =~= Seq::new(k + 1, |j: int| NodeId((d0.len() + j) as usize)));
    assert forall|j: int| 0 <= j < k + 1 implies (#[trigger] d2[d0.len() + j]).parent == Some(
        NodeId(id as usize),
    ) && d2[d0.len() + j].children@.len() == 0 by {
        if j < k {
            assert(d2[d0.len() + j] == d1[d0.len() + j]);
        }
    }
    assert forall|i: int| 0 <= i < d0.len() && i != id implies {
        &&& (#[trigger] d2[i]).data == d0[i].data
        &&& d2[i].children == d0[i].children
        &&& d2[i].parent == if d0[id].children@.contains(NodeId(i as usize)) {
            None
        } else {
            d0[i].parent
        }
    } by {
        assert(d2[i] == d1[i]);
    }
}

/// Remove every child of `id` from the tree: `id` is left childless and each former child loses
/// its parent link (its own subtree stays intact).
pub fn detach_children(doc: &mut Document, id: NodeId)
    requires
        old(doc).wf(),
        id.0 < old(doc)@.len(),
    ensures
        final(doc).wf(),
        detached_from(old(doc)@, final(doc)@, id.0 as int),
{
    let ghost d0 = doc@;
    let node = doc.get_mut(id);
    let mut old_children: Vec<NodeId> = Vec::new();
    std::mem::swap(&mut old_children, &mut node.children);
    let mut k: usize = 0;
    while k < old_children.len()
        invariant
            doc_wf(d0),
            id.0 < d0.len(),
            old_children@ == d0[id.0 as int].children@,
            doc@.len() == d0.len(),
            doc@[id.0 as int].data == d0[id.0 as int].data,
            doc@[id.0 as int].parent == d0[id.0 as int].parent,
            doc@[id.0 as int].children@.len() == 0,
            0 <= k <= old_children@.len(),
            forall|i: int|
                0 <= i < d0.len() && i != id.0 ==> {
                    &&& (#[trigger] doc@[i]).data == d0[i].data
                    &&& doc@[i].children == d0[i].children
                    &&& doc@[i].parent == if old_children@.take(k as int).contains(
                        NodeId(i as usize),
                    ) {
                        None
                    } else {
                        d0[i].parent
                    }
                },
        decreases old_children@.len() - k,
    {
        let c = old_children[k];
        assert(deeper(d0, id.0 as int, c.0 as int));
        let ghost before = doc@;
        let ch = doc.get_mut(c);
        ch.parent = None;
        proof {
            assert forall|i: int| 0 <= i < d0.len() && i != id.0 implies {
                &&& (#[trigger] doc@[i]).data == d0[i].data
                &&& doc@[i].children == d0[i].children
                &&& doc@[i].parent == if old_children@.take(k + 1).contains(NodeId(i as usize)) {
                    None
                } else {
                    d0[i].parent
                }
            } by {
                let t0 = old_children@.take(k as int);
                let t1 = old_children@.take(k + 1);
                assert(t1 =~= t0.push(c));
                if i != c.0 {
                    assert(doc@[i] == before[i]);
                    assert(NodeId(i as usize) != c);
                    if t0.contains(NodeId(i as usize)) {
                        let j = choose|j: int| 0 <= j < t0.len() && t0[j] == NodeId(i as usize);
                        assert(t1[j] == NodeId(i as usize));
                    }
                    if t1.contains(NodeId(i as usize)) {
                        let j = choose|j: int| 0 <= j < t1.len() && t1[j] == NodeId(i as usize);
                        assert(j < k);
                        assert(t0[j] == NodeId(i as usize));
                    }
                } else {
                    assert(t1[k as int] == NodeId(i as usize));
                }
            }
        }
        k += 1;
    }
    proof {
        assert(old_children@.take(old_children@.len() as int) =~= old_children@);
        let n = doc@;
        assert(n[0].data == d0[0].data);
        assert forall|i: int| 0 <= i < n.len() implies (#[trigger] n[i]).parent == d0[i].parent || n[i].parent is None by {
        }
        assert forall|i: int, j: int|
            0 <= i < n.len() && 0 <= j < n[i].children@.len() implies d0[i].children@.contains(
            #[trigger] n[i].children@[j],
        ) by {
            assert(n[i].children == d0[i].children);
            assert(d0[i].children@[j] == n[i].children@[j]);
        }
        assert forall|i: int| 0 <= i < n.len() implies (#[trigger] n[i]).data == d0[i].data || data_ok(n[i].data) by {
        }
        lemma_wf_fewer_links(d0, n);
    }
}

/// Replace all children of `id` with a single `Text` node holding `text` (no child at all for
/// an empty `text`). On a Text/Comment/CDATA/processing-instruction node the node's own data is
/// replaced instead. The detached children keep their subtrees but lose their parent link.
pub fn set_text_content(doc: &mut Document, id: NodeId, text: &str)
    requires
        old(doc).wf(),
        id.0 < old(doc)@.len(),
    ensures
        final(doc).wf(),
        match old(doc)@[id.0 as int].data {
            NodeData::Text(_) | NodeData::Comment(_) | NodeData::Cdata(_)
            | NodeData::ProcessingInstruction(_) => {
                &&& final(doc)@.len() == old(doc)@.len()
                &&& forall|i: int|
                    0 <= i < old(doc)@.len() && i != id.0 ==> #[trigger] final(doc)@[i] == old(
                        doc,
                    )@[i]
                &&& final(doc)@[id.0 as int].parent == old(doc)@[id.0 as int].parent
                &&& final(doc)@[id.0 as int].children == old(doc)@[id.0 as int].children
                &&& spec_text_content(final(doc)@, id.0 as int) == text@
            },
            _ => {
                &&& children_replaced(
                    old(doc)@,
                    final(doc)@,
                    id.0 as int,
                    if text@.len() > 0 {
                        1
                    } else {
                        0
                    },
                )
                &&& text@.len() > 0 ==> (final(doc)@[old(doc)@.len() as int].data matches NodeData::Text(
                    t,
                ) && t@ == text@)
                &&& spec_text_content(final(doc)@, id.0 as int) == text@
            },
        },
{
    let ghost d0 = doc@;
    let node = doc.get_mut(id);
    let own_data = match &mut node.data {
        NodeData::Text(t) => {
            *t = string_of(text);
            true
        },
        NodeData::Comment(c) => {
            *c = string_of(text);
            true
        },
        NodeData::Cdata(c) => {
            *c = string_of(text);
            true
        },
        NodeData::ProcessingInstruction(p) => {
            p.data = string_of(text);
            true
        },
        _ => false,
    };
    if own_data {
        proof {
            lemma_wf_same_links(d0, doc@, id.0 as int);
        }
        return;
    }
    proof {
        assert(doc@ =~= d0);
    }
    detach_children(doc, id);
    proof {
        assert(doc@[id.0 as int].children@ =~= Seq::new(0, |j: int| NodeId((d0.len() + j) as usize)));
    }
    if text.unicode_len() > 0 {
        let ghost d1 = doc@;
        let t = string_of(text);
        doc.append_child(id, NodeData::Text(t));
        proof {
            lemma_children_replaced_push(d0, d1, doc@, id.0 as int, 0);
            let d2 = doc@;
            let c = d0.len() as int;
            assert(d2[id.0 as int].children@[0] == NodeId(c as usize));
            assert(descendant_text(d2, c) == text@);
            assert(children_text(d2, id.0 as int, 0) == Seq::<char>::empty());
            assert(children_text(d2, id.0 as int, 1) =~= text@);
        }
    } else {
        proof {
            assert(children_text(doc@, id.0 as int, 0) == Seq::<char>::empty());
            assert(text@ =~= Seq::<char>::empty());
        }
    }
}

// ---------------------------------------------------------------------------------------------
// innerHTML
// ---------------------------------------------------------------------------------------------

pub open spec fn is_void_tag(tag: Seq<char>) -> bool {
    let t = lower_seq(tag);
    ||| t == "area"@ || t == "base"@ || t == "br"@ || t == "col"@ || t == "embed"@
    ||| t == "hr"@ || t == "img"@ || t == "input"@ || t == "link"@ || t == "meta"@
    ||| t == "param"@ || t == "source"@ || t == "track"@ || t == "wbr"@
}

/// Void elements have no end tag and their children are not serialized.
pub fn is_void(tag: &str) -> (r: bool)
    ensures
        r == is_void_tag(tag@),
{
    let t = lower(&to_chars(tag));
    crate::text::eq_str(&t, "area") || crate::text::eq_str(&t, "base") || crate::text::eq_str(&t, "br")
        || crate::text::eq_str(&t, "col") || crate::text::eq_str(&t, "embed") || crate::text::eq_str(&t, "hr")
        || crate::text::eq_str(&t, "img") || crate::text::eq_str(&t, "input") || crate::text::eq_str(&t, "link")
        || crate::text::eq_str(&t, "meta") || crate::text::eq_str(&t, "param") || crate::text::eq_str(&t, "source")
        || crate::text::eq_str(&t, "track") || crate::text::eq_str(&t, "wbr")
}

pub open spec fn text_escape_char(c: char) -> Seq<char> {
    if c == '&' {
        "&amp;"@
    } else if c == '<' {
        "&lt;"@
    } else if c == '>' {
        "&gt;"@
    } else {
        seq![c]
    }
}

pub open spec fn attr_escape_char(c: char) -> Seq<char> {
    if c == '&' {
        "&amp;"@
    } else if c == '"' {
        "&quot;"@
    } else {
        seq![c]
    }
}

/// Text with `&`, `<` and `>` escaped as character references.
pub open spec fn escape_text(s: Seq<char>) -> Seq<char> {
    s.map_values(|c: char| text_escape_char(c)).flatten()
}

/// Attribute values with `&` and `"` escaped as character references.
pub open spec fn escape_attr(s: Seq<char>) -> Seq<char> {
    s.map_values(|c: char| attr_escape_char(c)).flatten()
}

/// Append the escaped form of `s` (text escaping when `attr` is false, attribute escaping when
/// it is true).
fn push_escaped(out: &mut String, s: &str, attr: bool)
    ensures
        final(out)@ == old(out)@ + if attr {
            escape_attr(s@)
        } else {
            escape_text(s@)
        },
{
    let v = to_chars(s);
    let ghost f = if attr {
        |c: char| attr_escape_char(c)
    } else {
        |c: char| text_escape_char(c)
    };
    let mut i: usize = 0;
    while i < v.len()
        invariant
            v@ == s@,
            0 <= i <= v@.len(),
            f == (if attr {
                |c: char| attr_escape_char(c)
            } else {
                |c: char| text_escape_char(c)
            }),
            out@ == old(out)@ + v@.take(i as int).map_values(f).flatten(),
        decreases v@.len() - i,
    {
        let c = v[i];
        let ghost before = out@;
        if c == '&' {
            push_str(out, "&amp;");
        } else if !attr && c == '<' {
            push_str(out, "&lt;");
        } else if !attr && c == '>' {
            push_str(out, "&gt;");
        } else if attr && c == '"' {
            push_str(out, "&quot;");
        } else {
            push_char(out, c);
            assert(out@ =~= before + seq![c]);
        }
        proof {
            let m = v@.take(i as int).map_values(f);
            assert(v@.take(i + 1).map_values(f) =~= m.push(f(c)));
            m.lemma_flatten_push(f(c));
        }
        i += 1;
    }
    assert(v@.take(v@.len() as int) =~= v@);
}

pub open spec fn attrs_html(attrs: Seq<(String, String)>) -> Seq<char> {
    attrs.map_values(|a: (String, String)| " "@ + a.0@ + "=\""@ + escape_attr(a.1@) + "\""@).flatten()
}

/// The markup of the node `id` and its subtree.
pub open spec fn node_html(nodes: Seq<Node>, id: int) -> Seq<char>
    decreases nodes.len() - rank(nodes, id), 1int, 0int,
{
    if 0 <= id < nodes.len() {
        let n = nodes[id].children@.len() as int;
        match nodes[id].data {
            NodeData::Text(t) => escape_text(t@),
            NodeData::Cdata(c) => "<![CDATA["@ + c@ + "]]>"@,
            NodeData::Comment(c) => "<!--"@ + c@ + "-->"@,
            NodeData::Element(e) => "<"@ + e.tag@ + attrs_html(e.attrs@) + ">"@ + if is_void_tag(
                e.tag@,
            ) {
                seq![]
            } else {
                children_html(nodes, id, n) + "</"@ + e.tag@ + ">"@
            },
            NodeData::DocumentType(d) => "<!DOCTYPE "@ + d.name@ + ">"@,
            NodeData::ProcessingInstruction(p) => "<?"@ + p.target@ + " "@ + p.data@ + ">"@,
            _ => children_html(nodes, id, n),
        }
    } else {
        seq![]
    }
}

/// The markup of the first `k` children of `id`.
pub open spec fn children_html(nodes: Seq<Node>, id: int, k: int) -> Seq<char>
    decreases nodes.len() - rank(nodes, id), 0int, k,
{
    if !(0 <= id < nodes.len()) || k <= 0 || k > nodes[id].children@.len() {
        seq![]
    } else {
        let c = nodes[id].children@[k - 1].0 as int;
        children_html(nodes, id, k - 1) + if deeper(nodes, id, c) {
            node_html(nodes, c)
        } else {
            seq![]
        }
    }
}

fn push_attrs(out: &mut String, attrs: &Vec<(String, String)>)
    ensures
        final(out)@ == old(out)@ + attrs_html(attrs@),
{
    let ghost f = |a: (String, String)| " "@ + a.0@ + "=\""@ + escape_attr(a.1@) + "\""@;
    let mut i: usize = 0;
    while i < attrs.len()
        invariant
            0 <= i <= attrs@.len(),
            f == (|a: (String, String)| " "@ + a.0@ + "=\""@ + escape_attr(a.1@) + "\""@),
            out@ == old(out)@ + attrs@.take(i as int).map_values(f).flatten(),
        decreases attrs@.len() - i,
    {
        let ghost before = out@;
        let (k, v) = &attrs[i];
        push_str(out, " ");
        push_str(out, k.as_str());
        push_str(out, "=\"");
        push_escaped(out, v.as_str(), true);
        push_str(out, "\"");
        proof {
            assert(out@ =~= before + f(attrs@[i as int]));
            let m = attrs@.take(i as int).map_values(f);
            assert(attrs@.take(i + 1).map_values(f) =~= m.push(f(attrs@[i as int])));
            m.lemma_flatten_push(f(attrs@[i as int]));
        }
        i += 1;
    }
    assert(attrs@.take(attrs@.len() as int) =~= attrs@);
}

/// Append the markup of the first `k` children of `id`... all of them.
fn push_children_html(doc: &Document, id: NodeId, out: &mut String)
    requires
        doc.wf(),
        id.0 < doc@.len(),
    ensures
        final(out)@ == old(out)@ + children_html(doc@, id.0 as int, doc@[id.0 as int].children@.len() as int),
    decreases doc@.len() - rank(doc@, id.0 as int), 0int,
{
    let node = doc.get(id);
    let n = node.children.len();
    let mut k: usize = 0;
    while k < n
        invariant
            doc.wf(),
            id.0 < doc@.len(),
            *node == doc@[id.0 as int],
            n == node.children@.len(),
            0 <= k <= n,
            out@ == old(out)@ + children_html(doc@, id.0 as int, k as int),
        decreases n - k,
    {
        let c = node.children[k];
        assert(deeper(doc@, id.0 as int, c.0 as int));
        push_node_html(doc, c, out);
        k += 1;
    }
}

/// Append the markup of node `id` and its subtree.
fn push_node_html(doc: &Document, id: NodeId, out: &mut String)
    requires
        doc.wf(),
        id.0 < doc@.len(),
    ensures
        final(out)@ == old(out)@ + node_html(doc@, id.0 as int),
    decreases doc@.len() - rank(doc@, id.0 as int), 1int,
{
    let ghost before = out@;
    match &doc.get(id).data {
        NodeData::Text(t) => push_escaped(out, t.as_str(), false),
        NodeData::Cdata(c) => {
            push_str(out, "<![CDATA[");
            push_str(out, c.as_str());
            push_str(out, "]]>");
            assert(out@ =~= before + node_html(doc@, id.0 as int));
        },
        NodeData::Comment(c) => {
            push_str(out, "<!--");
            push_str(out, c.as_str());
            push_str(out, "-->");
            assert(out@ =~= before + node_html(doc@, id.0 as int));
        },
        NodeData::Element(e) => {
            push_str(out, "<");
            push_str(out, e.tag.as_str());
            push_attrs(out, &e.attrs);
            push_str(out, ">");
            if !is_void(e.tag.as_str()) {
                push_children_html(doc, id, out);
                push_str(out, "</");
                push_str(out, e.tag.as_str());
                push_str(out, ">");
            }
            assert(out@ =~= before + node_html(doc@, id.0 as int));
        },
        NodeData::DocumentType(d) => {
            push_str(out, "<!DOCTYPE ");
            push_str(out, d.name.as_str());
            push_str(out, ">");
            assert(out@ =~= before + node_html(doc@, id.0 as int));
        },
        NodeData::ProcessingInstruction(p) => {
            push_str(out, "<?");
            push_str(out, p.target.as_str());
            push_str(out, " ");
            push_str(out, p.data.as_str());
            push_str(out, ">");
            assert(out@ =~= before + node_html(doc@, id.0 as int));
        },
        _ => {
            push_children_html(doc, id, out);
        },
    }
}

/// Serialize the children of `id` back to an HTML string (the `innerHTML` of `id`). Attributes
/// are written in the element's attribute order.
pub fn inner_html(doc: &Document, id: NodeId) -> (r: String)
    requires
        doc.wf(),
        id.0 < doc@.len(),
    ensures
        r@ == children_html(doc@, id.0 as int, doc@[id.0 as int].children@.len() as int),
{
    let mut out = String::new();
    push_children_html(doc, id, &mut out);
    out
}


// ---------------------------------------------------------------------------------------------
// Element lookups
// ---------------------------------------------------------------------------------------------

/// Node `i` is an element whose tag equals `tag` up to ASCII case.
pub open spec fn has_tag(nodes: Seq<Node>, i: int, tag: Seq<char>) -> bool {
    &&& 0 <= i < nodes.len()
    &&& nodes[i].data matches NodeData::Element(e) && lower_seq(e.tag@) == lower_seq(tag)
}

/// Node `i` is an element whose `id` attribute is `id`.
pub open spec fn has_id(nodes: Seq<Node>, i: int, id: Seq<char>) -> bool {
    &&& 0 <= i < nodes.len()
    &&& nodes[i].data matches NodeData::Element(e) && attr_value(e.attrs@, "id"@) == Some(id)
}

pub open spec fn tag_pred(nodes: Seq<Node>, tag: Seq<char>) -> spec_fn(NodeId) -> bool {
    |n: NodeId| has_tag(nodes, n.0 as int, tag)
}

pub open spec fn id_pred(nodes: Seq<Node>, id: Seq<char>) -> spec_fn(NodeId) -> bool {
    |n: NodeId| has_id(nodes, n.0 as int, id)
}

proof fn lemma_subtree_unfold(nodes: Seq<Node>, id: int)
    requires
        0 <= id < nodes.len(),
    ensures
        subtree(nodes, id) == seq![NodeId(id as usize)] + children_subtrees(
            nodes,
            id,
            nodes[id].children@.len() as int,
        ),
{
}

/// Once a prefix of the children's subtrees holds a match, longer prefixes hold the same one.
proof fn lemma_first_match_extends(nodes: Seq<Node>, id: int, k: int, j: int, p: spec_fn(NodeId) -> bool)
    requires
        0 <= id < nodes.len(),
        0 <= k <= j <= nodes[id].children@.len(),
        first_match(children_subtrees(nodes, id, k), p) is Some,
    ensures
        first_match(children_subtrees(nodes, id, j), p) == first_match(children_subtrees(nodes, id, k), p),
    decreases j - k,
{
    if j > k {
        lemma_first_match_extends(nodes, id, k, j - 1, p);
        {
            let cj = nodes[id].children@[j - 1].0 as int;
            lemma_first_match_concat(
                children_subtrees(nodes, id, j - 1),
                if deeper(nodes, id, cj) {
                    subtree(nodes, cj)
                } else {
                    seq![]
                },
                p,
            );
        }
    }
}

/// Depth-first search for the first element under `root` (itself included) whose tag equals
/// `tag`, ignoring ASCII case.
pub fn find_by_tag(doc: &Document, root: NodeId, tag: &str) -> (r: Option<NodeId>)
    requires
        doc.wf(),
        root.0 < doc@.len(),
    ensures
        r == first_match(subtree(doc@, root.0 as int), tag_pred(doc@, tag@)),
    decreases doc@.len() - rank(doc@, root.0 as int),
{
    let ghost p = tag_pred(doc@, tag@);
    let ghost rest = children_subtrees(doc@, root.0 as int, doc@[root.0 as int].children@.len() as int);
    proof {
        lemma_subtree_unfold(doc@, root.0 as int);
        lemma_first_match_concat(seq![root], rest, p);
        assert(seq![root].drop_first() =~= Seq::<NodeId>::empty());
    }
    let node = doc.get(root);
    if let NodeData::Element(e) = &node.data {
        if eq_ignore_case(e.tag.as_str(), tag) {
            return Some(root);
        }
    }
    assert(!p(root));
    let n = node.children.len();
    let mut k: usize = 0;
    while k < n
        invariant
            doc.wf(),
            root.0 < doc@.len(),
            *node == doc@[root.0 as int],
            n == node.children@.len(),
            p == tag_pred(doc@, tag@),
            0 <= k <= n,
            first_match(children_subtrees(doc@, root.0 as int, k as int), p) is None,
            first_match(subtree(doc@, root.0 as int), p) == first_match(
                children_subtrees(doc@, root.0 as int, n as int),
                p,
            ),
        decreases n - k,
    {
        let c = node.children[k];
        assert(deeper(doc@, root.0 as int, c.0 as int));
        let found = find_by_tag(doc, c, tag);
        proof {
            lemma_first_match_concat(
                children_subtrees(doc@, root.0 as int, k as int),
                subtree(doc@, c.0 as int),
                p,
            );
            assert(children_subtrees(doc@, root.0 as int, k + 1) == children_subtrees(
                doc@,
                root.0 as int,
                k as int,
            ) + subtree(doc@, c.0 as int));
        }
        if found.is_some() {
            proof {
                lemma_first_match_extends(doc@, root.0 as int, k + 1, n as int, p);
            }
            return found;
        }
        k += 1;
    }
    None
}

/// Depth-first search for the first element under `root` (itself included) whose `id`
/// attribute equals `id`.
pub fn find_by_id(doc: &Document, root: NodeId, id: &str) -> (r: Option<NodeId>)
    requires
        doc.wf(),
        root.0 < doc@.len(),
    ensures
        r == first_match(subtree(doc@, root.0 as int), id_pred(doc@, id@)),
    decreases doc@.len() - rank(doc@, root.0 as int),
{
    let ghost p = id_pred(doc@, id@);
    let ghost rest = children_subtrees(doc@, root.0 as int, doc@[root.0 as int].children@.len() as int);
    proof {
        lemma_subtree_unfold(doc@, root.0 as int);
        lemma_first_match_concat(seq![root], rest, p);
        assert(seq![root].drop_first() =~= Seq::<NodeId>::empty());
    }
    let node = doc.get(root);
    if let NodeData::Element(e) = &node.data {
        if let Some(v) = e.id() {
            if seq_eq(&to_chars(v), &to_chars(id)) {
                return Some(root);
            }
        }
    }
    assert(!p(root));
    let n = node.children.len();
    let mut k: usize = 0;
    while k < n
        invariant
            doc.wf(),
            root.0 < doc@.len(),
            *node == doc@[root.0 as int],
            n == node.children@.len(),
            p == id_pred(doc@, id@),
            0 <= k <= n,
            first_match(children_subtrees(doc@, root.0 as int, k as int), p) is None,
            first_match(subtree(doc@, root.0 as int), p) == first_match(
                children_subtrees(doc@, root.0 as int, n as int),
                p,
            ),
        decreases n - k,
    {
        let c = node.children[k];
        assert(deeper(doc@, root.0 as int, c.0 as int));
        let found = find_by_id(doc, c, id);
        proof {
            lemma_first_match_concat(
                children_subtrees(doc@, root.0 as int, k as int),
                subtree(doc@, c.0 as int),
                p,
            );
            assert(children_subtrees(doc@, root.0 as int, k + 1) == children_subtrees(
                doc@,
                root.0 as int,
                k as int,
            ) + subtree(doc@, c.0 as int));
        }
        if found.is_some() {
            proof {
                lemma_first_match_extends(doc@, root.0 as int, k + 1, n as int, p);
            }
            return found;
        }
        k += 1;
    }
    None
}

/// Append every element under `root` (itself included) whose tag equals `tag` (ignoring ASCII
/// case) to `out`, in document order.
pub fn collect_by_tag(doc: &Document, root: NodeId, tag: &str, out: &mut Vec<NodeId>)
    requires
        doc.wf(),
        root.0 < doc@.len(),
    ensures
        final(out)@ == old(out)@ + subtree(doc@, root.0 as int).filter(tag_pred(doc@, tag@)),
    decreases doc@.len() - rank(doc@, root.0 as int),
{
    let ghost p = tag_pred(doc@, tag@);
    let ghost rest = children_subtrees(doc@, root.0 as int, doc@[root.0 as int].children@.len() as int);
    proof {
        lemma_subtree_unfold(doc@, root.0 as int);
        Seq::filter_distributes_over_add(seq![root], rest, p);
    }
    let node = doc.get(root);
    let mut hit = false;
    if let NodeData::Element(e) = &node.data {
        if eq_ignore_case(e.tag.as_str(), tag) {
            hit = true;
        }
    }
    proof {
        reveal_with_fuel(Seq::filter, 2);
        assert(seq![root].drop_last() =~= Seq::<NodeId>::empty());
    }
    if hit {
        out.push(root);
    }
    assert(out@ == old(out)@ + seq![root].filter(p));
    let n = node.children.len();
    let mut k: usize = 0;
    while k < n
        invariant
            doc.wf(),
            root.0 < doc@.len(),
            *node == doc@[root.0 as int],
            n == node.children@.len(),
            p == tag_pred(doc@, tag@),
            0 <= k <= n,
            out@ == old(out)@ + seq![root].filter(p) + children_subtrees(doc@, root.0 as int, k as int).filter(p),
        decreases n - k,
    {
        let c = node.children[k];
        assert(deeper(doc@, root.0 as int, c.0 as int));
        proof {
            Seq::filter_distributes_over_add(
                children_subtrees(doc@, root.0 as int, k as int),
                subtree(doc@, c.0 as int),
                p,
            );
        }
        collect_by_tag(doc, c, tag, out);
        k += 1;
    }
}

/// Node `i` is an element carrying every one of the (non-empty list of) `wanted` classes.
pub open spec fn has_classes(nodes: Seq<Node>, i: int, wanted: Seq<Seq<char>>) -> bool {
    &&& 0 <= i < nodes.len()
    &&& wanted.len() > 0
    &&& nodes[i].data matches NodeData::Element(e) && forall|k: int|
        0 <= k < wanted.len() ==> class_list(e.attrs@).contains(#[trigger] wanted[k])
}

pub open spec fn class_pred(nodes: Seq<Node>, wanted: Seq<Seq<char>>) -> spec_fn(NodeId) -> bool {
    |n: NodeId| has_classes(nodes, n.0 as int, wanted)
}

fn has_all_classes(e: &ElementData, wanted: &Vec<String>) -> (r: bool)
    ensures
        r == (wanted@.len() > 0 && forall|k: int|
            0 <= k < wanted@.len() ==> class_list(e.attrs@).contains(#[trigger] str_views(wanted@)[k])),
{
    if wanted.len() == 0 {
        return false;
    }
    let classes = e.classes();
    let mut k: usize = 0;
    while k < wanted.len()
        invariant
            0 <= k <= wanted@.len(),
            str_views(classes@) == class_list(e.attrs@),
            forall|j: int| 0 <= j < k ==> class_list(e.attrs@).contains(#[trigger] str_views(wanted@)[j]),
        decreases wanted@.len() - k,
    {
        let w = to_chars(wanted[k].as_str());
        assert(str_views(wanted@)[k as int] == w@);
        let mut found = false;
        let mut j: usize = 0;
        while j < classes.len()
            invariant
                0 <= j <= classes@.len(),
                found ==> str_views(classes@).contains(w@),
                !found ==> forall|m: int| 0 <= m < j ==> str_views(classes@)[m] != w@,
            decreases classes@.len() - j,
        {
            if !found && seq_eq(&to_chars(classes[j].as_str()), &w) {
                assert(str_views(classes@)[j as int] == w@);
                found = true;
            }
            j += 1;
        }
        if !found {
            assert(!class_list(e.attrs@).contains(str_views(wanted@)[k as int]));
            return false;
        }
        k += 1;
    }
    true
}

/// Collect every element under `root` (itself included) carrying all of the `wanted` classes, in
/// document order (none when `wanted` is empty).
pub fn collect_by_class(doc: &Document, root: NodeId, wanted: &Vec<String>, out: &mut Vec<NodeId>)
    requires
        doc.wf(),
        root.0 < doc@.len(),
    ensures
        final(out)@ == old(out)@ + subtree(doc@, root.0 as int).filter(class_pred(doc@, str_views(wanted@))),
    decreases doc@.len() - rank(doc@, root.0 as int),
{
    let ghost p = class_pred(doc@, str_views(wanted@));
    let ghost rest = children_subtrees(doc@, root.0 as int, doc@[root.0 as int].children@.len() as int);
    proof {
        lemma_subtree_unfold(doc@, root.0 as int);
        Seq::filter_distributes_over_add(seq![root], rest, p);
        reveal_with_fuel(Seq::filter, 2);
        assert(seq![root].drop_last() =~= Seq::<NodeId>::empty());
    }
    let node = doc.get(root);
    let mut hit = false;
    if let NodeData::Element(e) = &node.data {
        if has_all_classes(e, wanted) {
            hit = true;
        }
    }
    if hit {
        out.push(root);
    }
    assert(out@ == old(out)@ + seq![root].filter(p));
    let n = node.children.len();
    let mut k: usize = 0;
    while k < n
        invariant
            doc.wf(),
            root.0 < doc@.len(),
            *node == doc@[root.0 as int],
            n == node.children@.len(),
            p == class_pred(doc@, str_views(wanted@)),
            0 <= k <= n,
            out@ == old(out)@ + seq![root].filter(p) + children_subtrees(doc@, root.0 as int, k as int).filter(p),
        decreases n - k,
    {
        let c = node.children[k];
        assert(deeper(doc@, root.0 as int, c.0 as int));
        proof {
            Seq::filter_distributes_over_add(
                children_subtrees(doc@, root.0 as int, k as int),
                subtree(doc@, c.0 as int),
                p,
            );
        }
        collect_by_class(doc, c, wanted, out);
        k += 1;
    }
}


// ---------------------------------------------------------------------------------------------
// Copying a parsed fragment
// ---------------------------------------------------------------------------------------------

/// The parent link and the child list of every node.
pub open spec fn links(nodes: Seq<Node>) -> Seq<(Option<NodeId>, Seq<NodeId>)> {
    nodes.map_values(|n: Node| (n.parent, n.children@))
}

/// The structural wrappers that a fragment copy descends through without copying them: the
/// elements `html`, `head` and `body`.
pub open spec fn is_wrapper(d: NodeData) -> bool {
    d matches NodeData::Element(e) && (e.tag@ == "html"@ || e.tag@ == "head"@ || e.tag@ == "body"@)
}

/// The links of an arena after the first `k` children of fragment node `src` of `f` have been
/// copied, in order, as children of `dst`: a wrapper child is not copied but its own children are
/// copied under `dst`; any other child is appended as the next node of the arena (a new last
/// child of `dst`) and its children are copied under the new node.
pub open spec fn copy_kids(
    l: Seq<(Option<NodeId>, Seq<NodeId>)>,
    dst: int,
    f: Seq<Node>,
    src: int,
    k: int,
) -> Seq<(Option<NodeId>, Seq<NodeId>)>
    decreases f.len() - rank(f, src), k,
{
    if !(0 <= src < f.len()) || k <= 0 || k > f[src].children@.len() {
        l
    } else {
        let l1 = copy_kids(l, dst, f, src, k - 1);
        let c = f[src].children@[k - 1].0 as int;
        if !deeper(f, src, c) {
            l1
        } else if is_wrapper(f[c].data) {
            copy_kids(l1, dst, f, c, f[c].children@.len() as int)
        } else {
            let n = l1.len() as int;
            let l2 = l1.update(dst, (l1[dst].0, l1[dst].1.push(NodeId(n as usize)))).push(
                (Some(NodeId(dst as usize)), seq![]),
            );
            copy_kids(l2, n, f, c, f[c].children@.len() as int)
        }
    }
}

/// The fragment nodes that the same copy appends to the arena, in the order it appends them.
pub open spec fn copied(f: Seq<Node>, src: int, k: int) -> Seq<int>
    decreases f.len() - rank(f, src), k,
{
    if !(0 <= src < f.len()) || k <= 0 || k > f[src].children@.len() {
        seq![]
    } else {
        let s1 = copied(f, src, k - 1);
        let c = f[src].children@[k - 1].0 as int;
        if !deeper(f, src, c) {
            s1
        } else if is_wrapper(f[c].data) {
            s1 + copied(f, c, f[c].children@.len() as int)
        } else {
            s1 + seq![c] + copied(f, c, f[c].children@.len() as int)
        }
    }
}

/// All children of `src` copied under `dst`.
pub open spec fn copy_all(l: Seq<(Option<NodeId>, Seq<NodeId>)>, dst: int, f: Seq<Node>, src: int) -> Seq<
    (Option<NodeId>, Seq<NodeId>),
> {
    copy_kids(l, dst, f, src, f[src].children@.len() as int)
}

pub open spec fn copied_all(f: Seq<Node>, src: int) -> Seq<int> {
    copied(f, src, f[src].children@.len() as int)
}

/// Recursively copy the children of `src_node` (in `frag`) as children of `dst_parent` in `doc`.
/// The structural wrappers `html`/`head`/`body` are descended into rather than copied.
pub fn copy_children_into(doc: &mut Document, dst_parent: NodeId, frag: &Document, src_node: NodeId)
    requires
        old(doc).wf(),
        frag.wf(),
        dst_parent.0 < old(doc)@.len(),
        src_node.0 < frag@.len(),
    ensures
        final(doc).wf(),
        final(doc)@.len() == old(doc)@.len() + copied_all(frag@, src_node.0 as int).len(),
        links(final(doc)@) == copy_all(links(old(doc)@), dst_parent.0 as int, frag@, src_node.0 as int),
        forall|i: int| 0 <= i < old(doc)@.len() ==> #[trigger] final(doc)@[i].data == old(doc)@[i].data,
        forall|i: int|
            old(doc)@.len() <= i < final(doc)@.len() ==> same_data(
                #[trigger] final(doc)@[i].data,
                frag@[copied_all(frag@, src_node.0 as int)[i - old(doc)@.len()]].data,
            ),
    decreases frag@.len() - rank(frag@, src_node.0 as int),
{
    let ghost d0 = doc@;
    let ghost f = frag@;
    let ghost s = src_node.0 as int;
    let kids = &frag.get(src_node).children;
    let n = kids.len();
    let mut i: usize = 0;
    while i < n
        invariant
            doc.wf(),
            frag.wf(),
            f == frag@,
            0 <= s < f.len(),
            s == src_node.0,
            kids@ == f[s].children@,
            n == kids@.len(),
            0 <= i <= n,
            dst_parent.0 < d0.len() <= doc@.len(),
            doc@.len() == d0.len() + copied(f, s, i as int).len(),
            links(doc@) == copy_kids(links(d0), dst_parent.0 as int, f, s, i as int),
            forall|j: int| 0 <= j < d0.len() ==> #[trigger] doc@[j].data == d0[j].data,
            forall|j: int|
                d0.len() <= j < doc@.len() ==> same_data(
                    #[trigger] doc@[j].data,
                    f[copied(f, s, i as int)[j - d0.len()]].data,
                ),
        decreases n - i,
    {
        let child = kids[i];
        let ghost c = child.0 as int;
        let ghost before = doc@;
        let ghost s1 = copied(f, s, i as int);
        assert(deeper(f, s, c));
        let wrapper = match &frag.get(child).data {
            NodeData::Element(e) => {
                let t = to_chars(e.tag.as_str());
                crate::text::eq_str(&t, "html") || crate::text::eq_str(&t, "head")
                    || crate::text::eq_str(&t, "body")
            },
            _ => false,
        };
        assert(wrapper == is_wrapper(f[c].data));
        if wrapper {
            copy_children_into(doc, dst_parent, frag, child);
            proof {
                let s2 = copied_all(f, c);
                assert(copied(f, s, i + 1) == s1 + s2);
                assert forall|j: int| d0.len() <= j < doc@.len() implies same_data(
                    #[trigger] doc@[j].data,
                    f[copied(f, s, i + 1)[j - d0.len()]].data,
                ) by {
                    if j < before.len() {
                        assert(doc@[j].data == before[j].data);
                        assert((s1 + s2)[j - d0.len()] == s1[j - d0.len()]);
                    } else {
                        assert((s1 + s2)[j - d0.len()] == s2[j - before.len()]);
                    }
                }
                assert forall|j: int| 0 <= j < d0.len() implies #[trigger] doc@[j].data == d0[j].data by {
                    assert(doc@[j].data == before[j].data);
                }
            }
        } else {
            let data = frag.get(child).data.clone();
            let new_id = doc.append_child(dst_parent, data);
            let ghost mid = doc@;
            proof {
                let l1 = links(before);
                let p = dst_parent.0 as int;
                assert forall|x: int| 0 <= x < before.len() implies #[trigger] links(mid)[x] == (
                    if x == p { (l1[p].0, l1[p].1.push(NodeId(before.len() as usize))) } else { l1[x] }
                ) by {
                    if x != p {
                        assert(mid[x] == before[x]);
                    }
                }
                assert(links(mid)[before.len() as int] == (Some(NodeId(dst_parent.0)), Seq::<NodeId>::empty()));
                assert(links(mid) =~= l1.update(
                    dst_parent.0 as int,
                    (l1[dst_parent.0 as int].0, l1[dst_parent.0 as int].1.push(NodeId(before.len() as usize))),
                ).push((Some(NodeId(dst_parent.0)), seq![])));
            }
            copy_children_into(doc, new_id, frag, child);
            proof {
                let s2 = copied_all(f, c);
                assert(copied(f, s, i + 1) == s1 + seq![c] + s2);
                assert forall|j: int| d0.len() <= j < doc@.len() implies same_data(
                    #[trigger] doc@[j].data,
                    f[copied(f, s, i + 1)[j - d0.len()]].data,
                ) by {
                    if j < before.len() {
                        assert(doc@[j].data == mid[j].data);
                        assert(mid[j].data == before[j].data);
                        assert((s1 + seq![c] + s2)[j - d0.len()] == s1[j - d0.len()]);
                    } else if j == before.len() {
                        assert(doc@[j].data == mid[j].data);
                        assert((s1 + seq![c] + s2)[j - d0.len()] == c);
                    } else {
                        assert((s1 + seq![c] + s2)[j - d0.len()] == s2[j - mid.len()]);
                    }
                }
                assert forall|j: int| 0 <= j < d0.len() implies #[trigger] doc@[j].data == d0[j].data by {
                    assert(doc@[j].data == mid[j].data);
                    assert(mid[j].data == before[j].data);
                }
            }
        }
        i += 1;
    }
}


proof fn lemma_copied_skips_wrappers(f: Seq<Node>, src: int, k: int)
    ensures
        forall|j: int|
            0 <= j < copied(f, src, k).len() ==> 0 <= #[trigger] copied(f, src, k)[j] < f.len()
                && !is_wrapper(f[copied(f, src, k)[j]].data),
    decreases f.len() - rank(f, src), k,
{
    if 0 <= src < f.len() && 0 < k <= f[src].children@.len() {
        lemma_copied_skips_wrappers(f, src, k - 1);
        let s1 = copied(f, src, k - 1);
        let c = f[src].children@[k - 1].0 as int;
        if deeper(f, src, c) {
            let all = f[c].children@.len() as int;
            lemma_copied_skips_wrappers(f, c, all);
            let s2 = copied(f, c, all);
            let s = copied(f, src, k);
            if is_wrapper(f[c].data) {
                assert forall|j: int| 0 <= j < s.len() implies 0 <= #[trigger] s[j] < f.len() && !is_wrapper(
                    f[s[j]].data,
                ) by {
                    if j < s1.len() {
                        assert(s[j] == s1[j]);
                    } else {
                        assert(s[j] == s2[j - s1.len()]);
                    }
                }
            } else {
                assert forall|j: int| 0 <= j < s.len() implies 0 <= #[trigger] s[j] < f.len() && !is_wrapper(
                    f[s[j]].data,
                ) by {
                    if j < s1.len() {
                        assert(s[j] == s1[j]);
                    } else if j == s1.len() {
                        assert(s[j] == c);
                    } else {
                        assert(s[j] == s2[j - s1.len() - 1]);
                    }
                }
            }
        }
    }
}

/// Copying a fragment never copies a structural wrapper (`html`, `head`, `body`): every node
/// it appends copies a node of the fragment that is not one.
pub proof fn law_fragment_copy_skips_wrappers(f: Seq<Node>, src: int)
    requires
        0 <= src < f.len(),
    ensures
        forall|j: int|
            0 <= j < copied_all(f, src).len() ==> 0 <= #[trigger] copied_all(f, src)[j] < f.len()
                && !is_wrapper(f[copied_all(f, src)[j]].data),
{
    lemma_copied_skips_wrappers(f, src, f[src].children@.len() as int);
}

} // verus!
