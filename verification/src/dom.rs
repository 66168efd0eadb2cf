//! A minimal, arena-allocated DOM. Nodes are referenced by [`NodeId`] (an index into the
//! arena) rather than by pointer, which keeps the tree `Clone`/`Send` and sidesteps the
//! ownership headaches of a pointer-linked tree.
//!
//! A document is *well formed* (`Document::wf`) when node 0 is the document root, every link
//! stays inside the arena, and the child lists form a forest: some depth can be given to every
//! node so that each child lies exactly one level below the node that lists it. Ids carry no
//! order, so a node may be moved under a newer one. The depth is what lets tree walks terminate.

use vstd::prelude::*;
use crate::text::{split_ws, views, to_chars, seq_eq, split_whitespace, string_from, string_of};

verus! {

/// Index of a node within a [`Document`]'s arena.
#[derive(Clone, Copy, Debug, PartialEq, Eq, Hash, Structural)]
pub struct NodeId(pub usize);

/// A `<!DOCTYPE name>` node.
#[derive(Debug)]
pub struct DocumentType {
    pub name: String,
}

/// A `<?target data?>` processing instruction.
#[derive(Debug)]
pub struct ProcessingInstruction {
    pub target: String,
    pub data: String,
}

#[derive(Debug)]
pub enum NodeData {
    /// The root document node.
    Document,
    /// A document fragment (a parentless container of nodes).
    DocumentFragment,
    /// An element, e.g. `<div class="x">`.
    Element(ElementData),
    /// A run of text.
    Text(String),
    /// A CDATA section.
    Cdata(String),
    /// A comment `<!-- ... -->`.
    Comment(String),
    DocumentType(DocumentType),
    ProcessingInstruction(ProcessingInstruction),
}

/// An element: its tag name, its attributes in source order, and its namespace (`None` for
/// HTML elements).
#[derive(Debug)]
pub struct ElementData {
    pub tag: String,
    pub attrs: Vec<(String, String)>,
    pub namespace: Option<String>,
}

#[derive(Debug)]
pub struct Node {
    pub data: NodeData,
    pub parent: Option<NodeId>,
    pub children: Vec<NodeId>,
}

/// An arena of nodes. Node 0 is always the [`NodeData::Document`] root.
#[derive(Debug)]
pub struct Document {
    nodes: Vec<Node>,
}

/// The character sequences held by a sequence of strings.
pub open spec fn str_views(v: Seq<String>) -> Seq<Seq<char>> {
    v.map_values(|s: String| s@)
}

/// No two entries of a name/value list share a name: the list is a map.
pub open spec fn distinct_names(pairs: Seq<(String, String)>) -> bool {
    forall|i: int, j: int| 0 <= i < j < pairs.len() ==> (#[trigger] pairs[i]).0@ != (#[trigger] pairs[j]).0@
}

/// The value of the first attribute named `name`.
pub open spec fn attr_value(attrs: Seq<(String, String)>, name: Seq<char>) -> Option<Seq<char>>
    decreases attrs.len(),
{
    if attrs.len() == 0 {
        None
    } else if attrs[0].0@ == name {
        Some(attrs[0].1@)
    } else {
        attr_value(attrs.drop_first(), name)
    }
}

/// The classes of an element: the whitespace-separated words of its `class` attribute.
pub open spec fn class_list(attrs: Seq<(String, String)>) -> Seq<Seq<char>> {
    match attr_value(attrs, "class"@) {
        Some(v) => split_ws(v),
        None => seq![],
    }
}

/// A node payload whose attributes (if it is an element) form a map: distinct names.
pub open spec fn data_ok(d: NodeData) -> bool {
    d matches NodeData::Element(e) ==> distinct_names(e.attrs@)
}

/// `d` gives every node a depth below the arena's length, and every listed child lies one level
/// below the node that lists it.
pub open spec fn depth_ok(nodes: Seq<Node>, d: Seq<nat>) -> bool {
    &&& d.len() == nodes.len()
    &&& forall|i: int| 0 <= i < d.len() ==> #[trigger] d[i] < nodes.len()
    &&& forall|i: int, k: int|
        0 <= i < nodes.len() && 0 <= k < nodes[i].children@.len() ==> {
            let c = (#[trigger] nodes[i].children@[k]).0 as int;
            0 <= c < nodes.len() && d[c] == d[i] + 1
        }
}

/// A depth assignment of the child lists (one exists exactly when they form a forest).
pub open spec fn depths(nodes: Seq<Node>) -> Seq<nat> {
    choose|d: Seq<nat>| depth_ok(nodes, d)
}

/// The depth of node `i` in a well-formed arena.
pub open spec fn rank(nodes: Seq<Node>, i: int) -> nat {
    depths(nodes)[i]
}

/// `c` is a node of the arena lying deeper than `id` (as every child of `id` does).
pub open spec fn deeper(nodes: Seq<Node>, id: int, c: int) -> bool {
    0 <= c < nodes.len() && rank(nodes, id) < rank(nodes, c) <= nodes.len()
}

/// The shape of a well-formed arena, without the facts about depth that follow from it.
pub open spec fn doc_links(nodes: Seq<Node>) -> bool {
    &&& forall|i: int| 0 <= i < nodes.len() ==> data_ok(#[trigger] nodes[i].data)
    &&& 0 < nodes.len() <= usize::MAX
    &&& nodes[0].data is Document
    &&& forall|i: int|
        0 <= i < nodes.len() && (#[trigger] nodes[i].parent) is Some ==> nodes[i].parent.unwrap().0
            < nodes.len()
    &&& exists|d: Seq<nat>| depth_ok(nodes, d)
}

/// Arena well-formedness: a document root at 0, links inside the arena, child lists forming a
/// forest (so every child lies deeper than its parent), and every element's attribute names
/// distinct.
pub open spec fn doc_wf(nodes: Seq<Node>) -> bool {
    &&& doc_links(nodes)
    &&& forall|i: int, k: int|
        0 <= i < nodes.len() && 0 <= k < nodes[i].children@.len() ==> deeper(
            nodes,
            i,
            (#[trigger] nodes[i].children@[k]).0 as int,
        )
}

/// The depths of a well-formed arena, as a sequence.
pub open spec fn rank_seq(nodes: Seq<Node>) -> Seq<nat> {
    Seq::new(nodes.len(), |i: int| rank(nodes, i))
}

/// A depth assignment makes the shape a well-formed arena.
pub proof fn lemma_wf_from_depth(nodes: Seq<Node>, d: Seq<nat>)
    requires
        forall|i: int| 0 <= i < nodes.len() ==> data_ok(#[trigger] nodes[i].data),
        0 < nodes.len() <= usize::MAX,
        nodes[0].data is Document,
        forall|i: int|
            0 <= i < nodes.len() && (#[trigger] nodes[i].parent) is Some ==> nodes[i].parent.unwrap().0
                < nodes.len(),
        depth_ok(nodes, d),
    ensures
        doc_wf(nodes),
        depth_ok(nodes, rank_seq(nodes)),
{
    let r = depths(nodes);
    assert(depth_ok(nodes, r));
    assert forall|i: int, k: int|
        0 <= i < nodes.len() && 0 <= k < nodes[i].children@.len() implies deeper(
        nodes,
        i,
        (#[trigger] nodes[i].children@[k]).0 as int,
    ) by {
        let c = nodes[i].children@[k].0 as int;
        assert(r[c] < nodes.len());
    }
    assert(rank_seq(nodes) =~= r);
}

/// The depths of a well-formed arena are a depth assignment.
pub proof fn lemma_wf_depth(nodes: Seq<Node>)
    requires
        doc_wf(nodes),
    ensures
        depth_ok(nodes, rank_seq(nodes)),
{
    let r = depths(nodes);
    assert(depth_ok(nodes, r));
    assert(rank_seq(nodes) =~= r);
}

fn clone_opt_string(s: &Option<String>) -> (r: Option<String>)
    ensures
        r == *s,
{
    match s {
        Some(t) => Some(t.clone()),
        None => None,
    }
}

/// Two node payloads carry the same content.
pub open spec fn same_element(a: ElementData, b: ElementData) -> bool {
    a.tag == b.tag && a.attrs@ == b.attrs@ && a.namespace == b.namespace
}

pub open spec fn same_data(a: NodeData, b: NodeData) -> bool {
    match (a, b) {
        (NodeData::Element(x), NodeData::Element(y)) => same_element(x, y),
        (NodeData::Element(_), _) => false,
        (_, NodeData::Element(_)) => false,
        _ => a == b,
    }
}

impl Clone for ElementData {
    fn clone(&self) -> (r: Self)
        ensures
            same_element(r, *self),
    {
        let mut attrs: Vec<(String, String)> = Vec::new();
        let mut i: usize = 0;
        while i < self.attrs.len()
            invariant
                0 <= i <= self.attrs@.len(),
                attrs@ == self.attrs@.take(i as int),
            decreases self.attrs@.len() - i,
        {
            let (k, v) = &self.attrs[i];
            attrs.push((k.clone(), v.clone()));
            i += 1;
            assert(attrs@ =~= self.attrs@.take(i as int));
        }
        assert(attrs@ =~= self.attrs@);
        ElementData { tag: self.tag.clone(), attrs, namespace: clone_opt_string(&self.namespace) }
    }
}

impl Clone for NodeData {
    fn clone(&self) -> (r: Self)
        ensures
            same_data(r, *self),
    {
        match self {
            NodeData::Document => NodeData::Document,
            NodeData::DocumentFragment => NodeData::DocumentFragment,
            NodeData::Element(e) => NodeData::Element(e.clone()),
            NodeData::Text(t) => NodeData::Text(t.clone()),
            NodeData::Cdata(t) => NodeData::Cdata(t.clone()),
            NodeData::Comment(t) => NodeData::Comment(t.clone()),
            NodeData::DocumentType(d) => NodeData::DocumentType(
                DocumentType { name: d.name.clone() },
            ),
            NodeData::ProcessingInstruction(p) => NodeData::ProcessingInstruction(
                ProcessingInstruction { target: p.target.clone(), data: p.data.clone() },
            ),
        }
    }
}

/// Index of the first attribute named `name`, if any.
pub fn find_attr(attrs: &Vec<(String, String)>, name: &[char]) -> (r: Option<usize>)
    ensures
        match r {
            Some(i) => i < attrs@.len() && attr_value(attrs@, name@) == Some(attrs@[i as int].1@),
            None => attr_value(attrs@, name@) is None,
        },
{
    let mut i: usize = 0;
    assert(attrs@.skip(0) =~= attrs@);
    while i < attrs.len()
        invariant
            0 <= i <= attrs@.len(),
            attr_value(attrs@, name@) == attr_value(attrs@.skip(i as int), name@),
        decreases attrs@.len() - i,
    {
        assert(attrs@.skip(i as int).drop_first() =~= attrs@.skip(i + 1));
        let k = to_chars(attrs[i].0.as_str());
        if seq_eq(&k, name) {
            return Some(i);
        }
        i += 1;
    }
    None
}

/// The value of the first attribute named `name`, if any.
pub fn get_attr<'a>(attrs: &'a Vec<(String, String)>, name: &str) -> (r: Option<&'a str>)
    ensures
        match r {
            Some(v) => attr_value(attrs@, name@) == Some(v@),
            None => attr_value(attrs@, name@) is None,
        },
{
    let n = to_chars(name);
    match find_attr(attrs, &n) {
        Some(i) => Some(attrs[i].1.as_str()),
        None => None,
    }
}

impl ElementData {
    /// The element's `id` attribute.
    pub fn id(&self) -> (r: Option<&str>)
        ensures
            match r {
                Some(v) => attr_value(self.attrs@, "id"@) == Some(v@),
                None => attr_value(self.attrs@, "id"@) is None,
            },
    {
        get_attr(&self.attrs, "id")
    }

    /// Whitespace-separated class list.
    pub fn classes(&self) -> (r: Vec<String>)
        ensures
            str_views(r@) == class_list(self.attrs@),
    {
        let v: Vec<char> = match get_attr(&self.attrs, "class") {
            Some(s) => to_chars(s),
            None => Vec::new(),
        };
        let words = split_whitespace(&v);
        let mut out: Vec<String> = Vec::new();
        let mut i: usize = 0;
        while i < words.len()
            invariant
                0 <= i <= words@.len(),
                str_views(out@) == views(words@).take(i as int),
            decreases words@.len() - i,
        {
            let w = string_from(&words[i]);
            let ghost before = out@;
            out.push(w);
            assert(views(words@)[i as int] == words@[i as int]@);
            assert(str_views(out@) =~= str_views(before).push(w@));
            assert(views(words@).take(i + 1 as int) =~= views(words@).take(i as int).push(
                views(words@)[i as int],
            ));
            i += 1;
        }
        assert(views(words@).take(words@.len() as int) =~= views(words@));
        proof {
            if attr_value(self.attrs@, "class"@) is None {
                assert(v@ =~= Seq::<char>::empty());
                assert(split_ws(v@) =~= Seq::<Seq<char>>::empty());
            }
        }
        out
    }
}

impl View for Document {
    type V = Seq<Node>;

    closed spec fn view(&self) -> Seq<Node> {
        self.nodes@
    }
}

impl Document {
    pub open spec fn wf(&self) -> bool {
        doc_wf(self@)
    }

    /// A document holding only its root node.
    pub fn new() -> (doc: Self)
        ensures
            doc.wf(),
            doc@.len() == 1,
            doc@[0].parent is None,
            doc@[0].children@.len() == 0,
    {
        let mut doc = Document { nodes: Vec::new() };
        doc.alloc_node(NodeData::Document, None);
        proof {
            let w: Seq<nat> = seq![0];
            assert(depth_ok(doc@, w));
            lemma_wf_from_depth(doc@, w);
        }
        doc
    }

    /// The document root, always [`NodeId`]`(0)`.
    pub fn root(&self) -> (r: NodeId)
        ensures
            r.0 == 0,
    {
        NodeId(0)
    }

    pub fn get(&self, id: NodeId) -> (r: &Node)
        requires
            id.0 < self@.len(),
        ensures
            *r == self@[id.0 as int],
    {
        &self.nodes[id.0]
    }

    pub fn get_mut(&mut self, id: NodeId) -> (r: &mut Node)
        requires
            id.0 < old(self)@.len(),
        ensures
            *r == old(self)@[id.0 as int],
            final(self)@ == old(self)@.update(id.0 as int, *final(r)),
    {
        &mut self.nodes[id.0]
    }

    pub fn len(&self) -> (r: usize)
        ensures
            r == self@.len(),
    {
        self.nodes.len()
    }

    pub fn is_empty(&self) -> (r: bool)
        ensures
            r == (self@.len() == 0),
    {
        self.nodes.len() == 0
    }

    /// Allocate a node (without linking it as anyone's child) and return its id.
    pub fn alloc_node(&mut self, data: NodeData, parent: Option<NodeId>) -> (id: NodeId)
        ensures
            id.0 == old(self)@.len(),
            final(self)@.len() == old(self)@.len() + 1,
            final(self)@.take(id.0 as int) == old(self)@,
            final(self)@[id.0 as int].data == data,
            final(self)@[id.0 as int].parent == parent,
            final(self)@[id.0 as int].children@.len() == 0,
            final(self)@.len() <= usize::MAX,
            old(self).wf() && data_ok(data) && (parent matches Some(p) ==> p.0 < old(self)@.len())
                ==> final(self).wf(),
    {
        let id = NodeId(self.nodes.len());
        self.nodes.push(Node { data, parent, children: Vec::new() });
        let total = self.nodes.len();
        assert(total == self@.len());
        assert(self.nodes@.take(id.0 as int) =~= old(self)@);
        proof {
            let d0 = old(self)@;
            let n = self@;
            if d0.len() > 0 && doc_wf(d0) && data_ok(data) && (parent matches Some(p) ==> p.0 < d0.len()) {
                lemma_wf_depth(d0);
                let w = rank_seq(d0).push(0);
                assert forall|i: int| 0 <= i < n.len() implies data_ok(#[trigger] n[i].data) by {
                    if i < d0.len() {
                        assert(n[i] == d0[i]);
                    }
                }
                assert forall|i: int|
                    0 <= i < n.len() && (#[trigger] n[i].parent) is Some implies n[i].parent.unwrap().0
                        < n.len() by {
                    if i < d0.len() {
                        assert(n[i] == d0[i]);
                    }
                }
                assert forall|i: int, k: int|
                    0 <= i < n.len() && 0 <= k < n[i].children@.len() implies {
                        let c = (#[trigger] n[i].children@[k]).0 as int;
                        0 <= c < n.len() && w[c] == w[i] + 1
                    } by {
                    assert(n[i] == d0[i]);
                    assert(d0[i].children@[k] == n[i].children@[k]);
                }
                assert(depth_ok(n, w));
                lemma_wf_from_depth(n, w);
            }
        }
        id
    }

    /// Allocate `data` as a child of `parent`, linking both directions.
    pub fn append_child(&mut self, parent: NodeId, data: NodeData) -> (id: NodeId)
        requires
            parent.0 < old(self)@.len(),
        ensures
            id.0 == old(self)@.len(),
            final(self)@.len() == old(self)@.len() + 1,
            forall|i: int|
                0 <= i < old(self)@.len() && i != parent.0 ==> #[trigger] final(self)@[i] == old(
                    self,
                )@[i],
            final(self)@[parent.0 as int].data == old(self)@[parent.0 as int].data,
            final(self)@[parent.0 as int].parent == old(self)@[parent.0 as int].parent,
            final(self)@[parent.0 as int].children@ == old(self)@[parent.0 as int].children@.push(
                id,
            ),
            final(self)@[id.0 as int].data == data,
            final(self)@[id.0 as int].parent == Some(parent),
            final(self)@[id.0 as int].children@.len() == 0,
            old(self).wf() && data_ok(data) ==> final(self).wf(),
    {
        let id = self.alloc_node(data, Some(parent));
        let ghost mid = self@;
        self.nodes[parent.0].children.push(id);
        proof {
            assert forall|i: int| 0 <= i < old(self)@.len() && i != parent.0 implies #[trigger] self@[i]
                == old(self)@[i] by {
                assert(mid.take(id.0 as int)[i] == mid[i]);
            }
            assert(mid.take(id.0 as int)[parent.0 as int] == mid[parent.0 as int]);
            if old(self).wf() && data_ok(data) {
                let n = self@;
                let d0 = old(self)@;
                lemma_wf_depth(d0);
                let w = rank_seq(d0).push(rank(d0, parent.0 as int) + 1);
                assert forall|i: int, k: int|
                    0 <= i < n.len() && 0 <= k < n[i].children@.len() implies {
                        let c = (#[trigger] n[i].children@[k]).0 as int;
                        0 <= c < n.len() && w[c] == w[i] + 1
                    } by {
                    if i == id.0 {
                    } else if i == parent.0 {
                        if k < d0[parent.0 as int].children@.len() {
                            assert(n[i].children@[k] == d0[i].children@[k]);
                        }
                    } else {
                        assert(n[i] == d0[i]);
                    }
                }
                assert forall|i: int| 0 <= i < n.len() implies data_ok(#[trigger] n[i].data) by {
                    if i != id.0 && i != parent.0 {
                        assert(n[i] == d0[i]);
                    }
                }
                assert forall|i: int|
                    0 <= i < n.len() && (#[trigger] n[i].parent) is Some implies n[i].parent.unwrap().0
                        < n.len() by {
                    if i != id.0 && i != parent.0 {
                        assert(n[i] == d0[i]);
                    }
                }
                assert(depth_ok(n, w));
                lemma_wf_from_depth(n, w);
            }
        }
        id
    }

    /// Convenience: create an element child.
    pub fn append_element(&mut self, parent: NodeId, tag: &str) -> (id: NodeId)
        requires
            parent.0 < old(self)@.len(),
        ensures
            id.0 == old(self)@.len(),
            final(self)@.len() == old(self)@.len() + 1,
            forall|i: int|
                0 <= i < old(self)@.len() && i != parent.0 ==> #[trigger] final(self)@[i] == old(
                    self,
                )@[i],
            final(self)@[parent.0 as int].data == old(self)@[parent.0 as int].data,
            final(self)@[parent.0 as int].parent == old(self)@[parent.0 as int].parent,
            final(self)@[parent.0 as int].children@ == old(self)@[parent.0 as int].children@.push(
                id,
            ),
            final(self)@[id.0 as int].data matches NodeData::Element(e) && e.tag@ == tag@
                && e.attrs@.len() == 0 && e.namespace is None,
            final(self)@[id.0 as int].parent == Some(parent),
            final(self)@[id.0 as int].children@.len() == 0,
            old(self).wf() ==> final(self).wf(),
    {
        self.append_child(
            parent,
            NodeData::Element(ElementData { tag: string_of(tag), attrs: Vec::new(), namespace: None }),
        )
    }
}

/// Dropping links keeps a document well formed: if every parent link is kept or cut, and every
/// child list keeps only children it had, the root stays a document root and the arena stays
/// well formed.
pub proof fn lemma_wf_fewer_links(d0: Seq<Node>, d1: Seq<Node>)
    requires
        doc_wf(d0),
        d1.len() == d0.len(),
        d1[0].data is Document,
        forall|i: int|
            0 <= i < d1.len() ==> (#[trigger] d1[i]).parent == d0[i].parent || d1[i].parent is None,
        forall|i: int, k: int|
            0 <= i < d1.len() && 0 <= k < d1[i].children@.len() ==> d0[i].children@.contains(
                #[trigger] d1[i].children@[k],
            ),
        forall|i: int| 0 <= i < d1.len() ==> (#[trigger] d1[i]).data == d0[i].data || data_ok(d1[i].data),
    ensures
        doc_wf(d1),
{
    lemma_wf_depth(d0);
    let w = rank_seq(d0);
    assert forall|i: int| 0 <= i < d1.len() implies data_ok(#[trigger] d1[i].data) by {
        assert(d1[i].data == d0[i].data || data_ok(d1[i].data));
    }
    assert forall|i: int, k: int|
        0 <= i < d1.len() && 0 <= k < d1[i].children@.len() implies {
            let c = (#[trigger] d1[i].children@[k]).0 as int;
            0 <= c < d1.len() && w[c] == w[i] + 1
        } by {
        let c = d1[i].children@[k];
        assert(d0[i].children@.contains(c));
        let j = choose|j: int| 0 <= j < d0[i].children@.len() && d0[i].children@[j] == c;
        assert(d0[i].children@[j] == c);
    }
    assert forall|i: int| 0 <= i < d1.len() && (#[trigger] d1[i].parent) is Some implies d1[i].parent.unwrap().0
        < d1.len() by {
        assert(d1[i].parent == d0[i].parent);
    }
    assert(depth_ok(d1, w));
    lemma_wf_from_depth(d1, w);
}

// ---------------------------------------------------------------------------------------------
// Tree walks
// ---------------------------------------------------------------------------------------------

/// The nodes of the subtree rooted at `id`, in document (pre-)order. Only links to deeper nodes
/// are followed, which every link of a well-formed document is.
pub open spec fn subtree(nodes: Seq<Node>, id: int) -> Seq<NodeId>
    decreases nodes.len() - rank(nodes, id), 1int, 0int,
{
    if 0 <= id < nodes.len() {
        seq![NodeId(id as usize)] + children_subtrees(nodes, id, nodes[id].children@.len() as int)
    } else {
        seq![]
    }
}

/// The subtrees of the first `k` children of `id`, concatenated.
pub open spec fn children_subtrees(nodes: Seq<Node>, id: int, k: int) -> Seq<NodeId>
    decreases nodes.len() - rank(nodes, id), 0int, k,
{
    if !(0 <= id < nodes.len()) || k <= 0 || k > nodes[id].children@.len() {
        seq![]
    } else {
        let c = nodes[id].children@[k - 1].0 as int;
        children_subtrees(nodes, id, k - 1) + if deeper(nodes, id, c) {
            subtree(nodes, c)
        } else {
            seq![]
        }
    }
}

/// The text of the Text/CDATA nodes in the subtree of `id`, in document order (the DOM
/// `textContent` of an element).
pub open spec fn descendant_text(nodes: Seq<Node>, id: int) -> Seq<char>
    decreases nodes.len() - rank(nodes, id), 1int, 0int,
{
    if 0 <= id < nodes.len() {
        match nodes[id].data {
            NodeData::Text(t) => t@,
            NodeData::Cdata(t) => t@,
            _ => children_text(nodes, id, nodes[id].children@.len() as int),
        }
    } else {
        seq![]
    }
}

/// The descendant text of the first `k` children of `id`, concatenated.
pub open spec fn children_text(nodes: Seq<Node>, id: int, k: int) -> Seq<char>
    decreases nodes.len() - rank(nodes, id), 0int, k,
{
    if !(0 <= id < nodes.len()) || k <= 0 || k > nodes[id].children@.len() {
        seq![]
    } else {
        let c = nodes[id].children@[k - 1].0 as int;
        children_text(nodes, id, k - 1) + if deeper(nodes, id, c) {
            descendant_text(nodes, c)
        } else {
            seq![]
        }
    }
}

/// The first entry of `s` satisfying `p`.
pub open spec fn first_match(s: Seq<NodeId>, p: spec_fn(NodeId) -> bool) -> Option<NodeId>
    decreases s.len(),
{
    if s.len() == 0 {
        None
    } else if p(s[0]) {
        Some(s[0])
    } else {
        first_match(s.drop_first(), p)
    }
}

pub proof fn lemma_first_match_concat(a: Seq<NodeId>, b: Seq<NodeId>, p: spec_fn(NodeId) -> bool)
    ensures
        first_match(a + b, p) == match first_match(a, p) {
            Some(x) => Some(x),
            None => first_match(b, p),
        },
    decreases a.len(),
{
    if a.len() > 0 {
        assert((a + b).drop_first() =~= a.drop_first() + b);
        lemma_first_match_concat(a.drop_first(), b, p);
    } else {
        assert(a + b =~= b);
    }
}


/// In an attribute list with distinct names, looking a name up finds the one attribute with
/// that name: the list behaves as a map from names to values (as every element of a well-formed
/// document's list does).
pub proof fn law_attr_value_finds_the_binding(attrs: Seq<(String, String)>)
    requires
        distinct_names(attrs),
    ensures
        forall|i: int| 0 <= i < attrs.len() ==> attr_value(attrs, #[trigger] attrs[i].0@) == Some(attrs[i].1@),
    decreases attrs.len(),
{
    if attrs.len() > 0 {
        let rest = attrs.drop_first();
        assert forall|i: int, j: int| 0 <= i < j < rest.len() implies (#[trigger] rest[i]).0@ != (
        #[trigger] rest[j]).0@ by {
            assert(rest[i] == attrs[i + 1] && rest[j] == attrs[j + 1]);
        }
        law_attr_value_finds_the_binding(rest);
        assert forall|i: int| 0 <= i < attrs.len() implies attr_value(attrs, #[trigger] attrs[i].0@) == Some(
            attrs[i].1@,
        ) by {
            if i > 0 {
                assert(attrs[i] == rest[i - 1]);
                assert(attrs[0].0@ != attrs[i].0@);
            }
        }
    }
}

} // verus!
