//! The document tree: an arena of nodes linked to their parent, siblings and children.
use vstd::prelude::*;

verus! {

/// Identifier of a node: its index in the document's arena. Index 0 holds a placeholder,
/// index 1 the document node itself.
#[derive(Clone, Copy, PartialEq, Eq, Structural, Debug)]
pub struct NodeId(pub usize);

impl NodeId {
    /// A node id with the given index.
    pub fn new(value: usize) -> (r: NodeId)
        requires
            value != 0,
        ensures
            r.0 == value,
    {
        NodeId(value)
    }

    /// The id of the document node.
    pub fn document_id() -> (r: NodeId)
        ensures
            r.0 == 1,
    {
        NodeId(1)
    }

    /// The index of this node in the arena.
    pub fn get(self) -> (r: usize)
        ensures
            r == self.0,
    {
        self.0
    }
}

/// A namespace-qualified name.
#[derive(Clone, Debug)]
pub struct QualName {
    /// The namespace URL, empty for no namespace.
    pub ns: String,
    /// The local name.
    pub local: String,
}

/// An attribute of an element.
#[derive(Clone, Debug)]
pub struct Attribute {
    pub name: QualName,
    pub value: String,
}

/// The `class` attribute value of an element.
#[derive(Clone, Debug)]
pub struct Class {
    pub value: String,
}

/// The attributes of an element, with the `class` attribute kept apart.
#[derive(Clone, Debug)]
pub struct Attributes {
    pub attributes: Vec<Attribute>,
    pub class: Option<Class>,
}

/// The name and attributes of an element.
#[derive(Clone, Debug)]
pub struct ElementInfo {
    pub name: QualName,
    pub attributes: Attributes,
}

/// What a node holds.
#[derive(Clone, Debug)]
pub enum NodeData {
    Document,
    Doctype { name: String },
    Text { text: String },
    Comment { text: String },
    Element { element: ElementInfo, inlining_ignored: bool },
    ProcessingInstruction { target: String, data: String },
}

/// A single node of the tree.
#[derive(Clone, Debug)]
pub struct Node {
    pub parent: Option<NodeId>,
    pub next_sibling: Option<NodeId>,
    pub previous_sibling: Option<NodeId>,
    pub first_child: Option<NodeId>,
    pub last_child: Option<NodeId>,
    pub data: NodeData,
}

impl Node {
    /// A node with the given data and no links.
    pub fn new(data: NodeData) -> (r: Node)
        ensures
            r.parent is None,
            r.next_sibling is None,
            r.previous_sibling is None,
            r.first_child is None,
            r.last_child is None,
            r.data == data,
    {
        Node {
            parent: None,
            previous_sibling: None,
            next_sibling: None,
            first_child: None,
            last_child: None,
            data,
        }
    }

    /// The element data of an element node.
    pub fn as_element(&self) -> (r: Option<&ElementInfo>)
        ensures
            r == (match self.data {
                NodeData::Element { element, .. } => Some(&element),
                _ => None,
            }),
    {
        match &self.data {
            NodeData::Element { element, .. } => Some(element),
            _ => None,
        }
    }

    /// The text of a text node.
    pub fn as_text(&self) -> (r: Option<&String>)
        ensures
            r == (match self.data {
                NodeData::Text { text } => Some(&text),
                _ => None,
            }),
    {
        match &self.data {
            NodeData::Text { text } => Some(text),
            _ => None,
        }
    }
}

/// A link that is either absent or points to a node in `[lo, hi)`.
pub open spec fn link_in(l: Option<NodeId>, lo: int, hi: int) -> bool {
    match l {
        Some(id) => lo <= id.0 < hi,
        None => true,
    }
}

/// Links point forward to children and following siblings and back to parents and
/// preceding siblings: every node comes after its parent and its preceding siblings.
pub open spec fn node_order_ok(nodes: Seq<Node>, i: int) -> bool {
    let n = nodes[i];
    &&& link_in(n.parent, 1, i)
    &&& link_in(n.previous_sibling, 1, i)
    &&& link_in(n.next_sibling, i + 1, nodes.len() as int)
    &&& link_in(n.first_child, i + 1, nodes.len() as int)
    &&& link_in(n.last_child, i + 1, nodes.len() as int)
}

pub open spec fn agree_next(nodes: Seq<Node>, i: int) -> bool {
    nodes[i].next_sibling matches Some(x) ==> {
        &&& nodes[x.0 as int].previous_sibling == Some(NodeId(i as usize))
        &&& nodes[x.0 as int].parent == nodes[i].parent
    }
}

pub open spec fn agree_prev(nodes: Seq<Node>, i: int) -> bool {
    nodes[i].previous_sibling matches Some(x) ==> {
        &&& nodes[x.0 as int].next_sibling == Some(NodeId(i as usize))
        &&& nodes[x.0 as int].parent == nodes[i].parent
    }
}

pub open spec fn agree_first(nodes: Seq<Node>, i: int) -> bool {
    nodes[i].first_child matches Some(c) ==> {
        &&& nodes[c.0 as int].parent == Some(NodeId(i as usize))
        &&& nodes[c.0 as int].previous_sibling is None
    }
}

pub open spec fn agree_last(nodes: Seq<Node>, i: int) -> bool {
    nodes[i].last_child matches Some(c) ==> {
        &&& nodes[c.0 as int].parent == Some(NodeId(i as usize))
        &&& nodes[c.0 as int].next_sibling is None
    }
}

pub open spec fn agree_parent(nodes: Seq<Node>, i: int) -> bool {
    nodes[i].parent matches Some(p) ==> {
        &&& (nodes[i].previous_sibling is None ==> nodes[p.0 as int].first_child == Some(
            NodeId(i as usize),
        ))
        &&& (nodes[i].next_sibling is None ==> nodes[p.0 as int].last_child == Some(
            NodeId(i as usize),
        ))
    }
}

/// The links of node `i` agree with the links of the nodes they point to: siblings share
/// their parent and point back at each other, a parent's first and last children are the
/// children without a preceding and without a following sibling.
pub open spec fn node_links_agree(nodes: Seq<Node>, i: int) -> bool {
    &&& agree_next(nodes, i)
    &&& agree_prev(nodes, i)
    &&& agree_first(nodes, i)
    &&& agree_last(nodes, i)
    &&& agree_parent(nodes, i)
    &&& (nodes[i].first_child is None <==> nodes[i].last_child is None)
}

pub open spec fn node_links_ok(nodes: Seq<Node>, i: int) -> bool {
    node_order_ok(nodes, i) && node_links_agree(nodes, i)
}

pub open spec fn nodes_wf(nodes: Seq<Node>) -> bool {
    &&& 2 <= nodes.len() <= usize::MAX
    &&& forall|i: int| 0 <= i < nodes.len() ==> #[trigger] node_links_ok(nodes, i)
}

pub open spec fn ids_in(ids: Seq<NodeId>, len: int) -> bool {
    forall|k: int| 0 <= k < ids.len() ==> 1 <= #[trigger] ids[k].0 < len
}

/// An HTML document: the nodes of its tree, and the ids of its elements, of its `style`
/// elements and of its `link` elements that refer to stylesheets.
pub struct Document {
    pub nodes: Vec<Node>,
    pub elements: Vec<NodeId>,
    pub styles: Vec<NodeId>,
    pub linked_stylesheets: Vec<NodeId>,
}

/// The node list after `detach(id)`.
pub open spec fn spec_detach(nodes: Seq<Node>, id: int) -> Seq<Node> {
    let n = nodes[id];
    let parent = n.parent;
    let prev = n.previous_sibling;
    let next = n.next_sibling;
    let s1 = nodes.update(
        id,
        Node { parent: None, previous_sibling: None, next_sibling: None, ..n },
    );
    let s2 = match next {
        Some(nx) => s1.update(nx.0 as int, Node { previous_sibling: prev, ..s1[nx.0 as int] }),
        None => match parent {
            Some(p) => s1.update(p.0 as int, Node { last_child: prev, ..s1[p.0 as int] }),
            None => s1,
        },
    };
    match prev {
        Some(pv) => s2.update(pv.0 as int, Node { next_sibling: next, ..s2[pv.0 as int] }),
        None => match parent {
            Some(p) => s2.update(p.0 as int, Node { first_child: next, ..s2[p.0 as int] }),
            None => s2,
        },
    }
}

/// The node list after linking the detached node `id` as the last child of `parent`.
pub open spec fn spec_link_last(s1: Seq<Node>, parent: int, id: int) -> Seq<Node> {
    let last = s1[parent].last_child;
    let s2 = s1.update(id, Node { parent: Some(NodeId(parent as usize)), ..s1[id] });
    let s3 = match last {
        Some(lc) => {
            let t = s2.update(
                id,
                Node { previous_sibling: Some(lc), ..s2[id] },
            );
            t.update(lc.0 as int, Node { next_sibling: Some(NodeId(id as usize)), ..t[lc.0 as int] })
        },
        None => s2.update(
            parent,
            Node { first_child: Some(NodeId(id as usize)), ..s2[parent] },
        ),
    };
    s3.update(parent, Node { last_child: Some(NodeId(id as usize)), ..s3[parent] })
}

/// The node list after `append(parent, id)`: `id` is detached, then linked as the last child
/// of `parent`.
pub open spec fn spec_append(nodes: Seq<Node>, parent: int, id: int) -> Seq<Node> {
    spec_link_last(spec_detach(nodes, id), parent, id)
}

/// The node list after linking the detached node `id` right before `sibling`.
pub open spec fn spec_link_before(s1: Seq<Node>, sibling: int, id: int) -> Seq<Node> {
    let sparent = s1[sibling].parent;
    let s2 = s1.update(
        id,
        Node { parent: sparent, next_sibling: Some(NodeId(sibling as usize)), ..s1[id] },
    );
    let prev = s2[sibling].previous_sibling;
    let s3 = match prev {
        Some(pv) => {
            let t = s2.update(id, Node { previous_sibling: Some(pv), ..s2[id] });
            t.update(pv.0 as int, Node { next_sibling: Some(NodeId(id as usize)), ..t[pv.0 as int] })
        },
        None => match sparent {
            Some(p) => s2.update(
                p.0 as int,
                Node { first_child: Some(NodeId(id as usize)), ..s2[p.0 as int] },
            ),
            None => s2,
        },
    };
    s3.update(sibling, Node { previous_sibling: Some(NodeId(id as usize)), ..s3[sibling] })
}

/// The node list after `insert_before(sibling, id)`: `id` is detached, then linked right
/// before `sibling`.
pub open spec fn spec_insert_before(nodes: Seq<Node>, sibling: int, id: int) -> Seq<Node> {
    spec_link_before(spec_detach(nodes, id), sibling, id)
}

/// The nodes that the links of node `i` point to are well linked.
pub open spec fn linked_ok(nodes: Seq<Node>, i: int) -> bool {
    let n = nodes[i];
    &&& (n.parent matches Some(x) ==> node_links_ok(nodes, x.0 as int))
    &&& (n.previous_sibling matches Some(x) ==> node_links_ok(nodes, x.0 as int))
    &&& (n.next_sibling matches Some(x) ==> node_links_ok(nodes, x.0 as int))
    &&& (n.first_child matches Some(x) ==> node_links_ok(nodes, x.0 as int))
    &&& (n.last_child matches Some(x) ==> node_links_ok(nodes, x.0 as int))
}

pub proof fn lemma_linked_ok(nodes: Seq<Node>, i: int)
    requires
        nodes_wf(nodes),
        0 <= i < nodes.len(),
    ensures
        node_links_ok(nodes, i),
        linked_ok(nodes, i),
{
    assert(node_links_ok(nodes, i));
    let n = nodes[i];
    if let Some(x) = n.parent {
        assert(node_links_ok(nodes, x.0 as int));
    }
    if let Some(x) = n.previous_sibling {
        assert(node_links_ok(nodes, x.0 as int));
    }
    if let Some(x) = n.next_sibling {
        assert(node_links_ok(nodes, x.0 as int));
    }
    if let Some(x) = n.first_child {
        assert(node_links_ok(nodes, x.0 as int));
    }
    if let Some(x) = n.last_child {
        assert(node_links_ok(nodes, x.0 as int));
    }
}

/// Node `k` after detaching node `id`, written field by field.
pub open spec fn detached_node(nodes: Seq<Node>, id: int, k: int) -> Node {
    let n = nodes[id];
    let m = nodes[k];
    let kid = Some(NodeId(k as usize));
    Node {
        parent: if k == id { None } else { m.parent },
        previous_sibling: if k == id { None } else if n.next_sibling == kid { n.previous_sibling } else { m.previous_sibling },
        next_sibling: if k == id { None } else if n.previous_sibling == kid { n.next_sibling } else { m.next_sibling },
        first_child: if n.parent == kid && n.previous_sibling is None { n.next_sibling } else { m.first_child },
        last_child: if n.parent == kid && n.next_sibling is None { n.previous_sibling } else { m.last_child },
        data: m.data,
    }
}

pub proof fn lemma_detach_pointwise(nodes: Seq<Node>, id: int)
    requires
        nodes_wf(nodes),
        1 <= id < nodes.len(),
    ensures
        spec_detach(nodes, id).len() == nodes.len(),
        forall|k: int| 0 <= k < nodes.len() ==> #[trigger] spec_detach(nodes, id)[k] == detached_node(nodes, id, k),
{
    lemma_linked_ok(nodes, id);
    let r = spec_detach(nodes, id);
    let n = nodes[id];
    let s1 = nodes.update(
        id,
        Node { parent: None, previous_sibling: None, next_sibling: None, ..n },
    );
    assert forall|k: int| 0 <= k < nodes.len() implies #[trigger] r[k] == detached_node(nodes, id, k) by {
        lemma_linked_ok(nodes, k);
        if let Some(pv) = n.previous_sibling {
            assert(pv.0 != id);
            if let Some(p) = n.parent {
                assert(p.0 < pv.0);
            }
        }
        if let Some(nx) = n.next_sibling {
            assert(nx.0 != id);
        }
        assert((k as usize) as int == k);
    }
}

pub open spec fn detached(nodes: Seq<Node>, id: int) -> Seq<Node> {
    Seq::new(nodes.len(), |k: int| detached_node(nodes, id, k))
}

/// Facts about the neighbourhood of the detached node.
pub proof fn lemma_detach_facts(nodes: Seq<Node>, id: int)
    requires
        nodes_wf(nodes),
        1 <= id < nodes.len(),
    ensures
        node_links_ok(nodes, id),
        nodes[id].parent matches Some(x) ==> node_links_ok(nodes, x.0 as int),
        nodes[id].previous_sibling matches Some(x) ==> node_links_ok(nodes, x.0 as int),
        nodes[id].next_sibling matches Some(x) ==> node_links_ok(nodes, x.0 as int),
{
    lemma_linked_ok(nodes, id);
}

proof fn lemma_detach_order(nodes: Seq<Node>, id: int, i: int)
    requires
        nodes_wf(nodes),
        1 <= id < nodes.len(),
        0 <= i < nodes.len(),
    ensures
        node_order_ok(detached(nodes, id), i),
{
    lemma_detach_facts(nodes, id);
    assert(node_links_ok(nodes, i));
}

proof fn lemma_detach_next(nodes: Seq<Node>, id: int, i: int)
    requires
        nodes_wf(nodes),
        1 <= id < nodes.len(),
        0 <= i < nodes.len(),
    ensures
        agree_next(detached(nodes, id), i),
{
    let r = detached(nodes, id);
    lemma_detach_facts(nodes, id);
    assert(node_links_ok(nodes, i));
    assert((i as usize) as int == i);
    if let Some(x) = r[i].next_sibling {
        lemma_linked_ok(nodes, x.0 as int);
    }
}

proof fn lemma_detach_prev(nodes: Seq<Node>, id: int, i: int)
    requires
        nodes_wf(nodes),
        1 <= id < nodes.len(),
        0 <= i < nodes.len(),
    ensures
        agree_prev(detached(nodes, id), i),
{
    let r = detached(nodes, id);
    lemma_detach_facts(nodes, id);
    assert(node_links_ok(nodes, i));
    assert((i as usize) as int == i);
    if let Some(x) = r[i].previous_sibling {
        lemma_linked_ok(nodes, x.0 as int);
    }
}

proof fn lemma_detach_first(nodes: Seq<Node>, id: int, i: int)
    requires
        nodes_wf(nodes),
        1 <= id < nodes.len(),
        0 <= i < nodes.len(),
    ensures
        agree_first(detached(nodes, id), i),
{
    let r = detached(nodes, id);
    lemma_detach_facts(nodes, id);
    assert(node_links_ok(nodes, i));
    assert((i as usize) as int == i);
    if let Some(x) = r[i].first_child {
        lemma_linked_ok(nodes, x.0 as int);
    }
}

proof fn lemma_detach_last(nodes: Seq<Node>, id: int, i: int)
    requires
        nodes_wf(nodes),
        1 <= id < nodes.len(),
        0 <= i < nodes.len(),
    ensures
        agree_last(detached(nodes, id), i),
{
    let r = detached(nodes, id);
    lemma_detach_facts(nodes, id);
    assert(node_links_ok(nodes, i));
    assert((i as usize) as int == i);
    if let Some(x) = r[i].last_child {
        lemma_linked_ok(nodes, x.0 as int);
    }
}

proof fn lemma_detach_parent(nodes: Seq<Node>, id: int, i: int)
    requires
        nodes_wf(nodes),
        1 <= id < nodes.len(),
        0 <= i < nodes.len(),
    ensures
        agree_parent(detached(nodes, id), i),
        (detached(nodes, id)[i].first_child is None <==> detached(nodes, id)[i].last_child is None),
{
    let r = detached(nodes, id);
    lemma_detach_facts(nodes, id);
    assert(node_links_ok(nodes, i));
    assert((i as usize) as int == i);
    if let Some(x) = r[i].parent {
        lemma_linked_ok(nodes, x.0 as int);
    }
}

/// Node `i` is well linked after detaching node `id`.
pub proof fn lemma_detach_node_ok(nodes: Seq<Node>, id: int, i: int)
    requires
        nodes_wf(nodes),
        1 <= id < nodes.len(),
        0 <= i < nodes.len(),
    ensures
        node_links_ok(detached(nodes, id), i),
{
    lemma_detach_order(nodes, id, i);
    lemma_detach_next(nodes, id, i);
    lemma_detach_prev(nodes, id, i);
    lemma_detach_first(nodes, id, i);
    lemma_detach_last(nodes, id, i);
    lemma_detach_parent(nodes, id, i);
}

/// Detaching a node keeps the tree well formed.
pub proof fn lemma_detach_wf(nodes: Seq<Node>, id: int)
    requires
        nodes_wf(nodes),
        1 <= id < nodes.len(),
    ensures
        nodes_wf(spec_detach(nodes, id)),
        spec_detach(nodes, id).len() == nodes.len(),
        forall|k: int| 0 <= k < nodes.len() ==> (#[trigger] spec_detach(nodes, id)[k]).data == nodes[k].data,
{
    let r = spec_detach(nodes, id);
    lemma_detach_pointwise(nodes, id);
    let d = detached(nodes, id);
    assert(r =~= d);
    assert forall|i: int| 0 <= i < d.len() implies #[trigger] node_links_ok(d, i) by {
        lemma_detach_node_ok(nodes, id, i);
    }
    assert forall|k: int| 0 <= k < nodes.len() implies (#[trigger] r[k]).data == nodes[k].data by {}
}

/// Node `k` after linking the detached node `id` as the last child of `parent`.
pub open spec fn linked_last_node(s1: Seq<Node>, parent: int, id: int, k: int) -> Node {
    let lc = s1[parent].last_child;
    let m = s1[k];
    Node {
        parent: if k == id { Some(NodeId(parent as usize)) } else { m.parent },
        previous_sibling: if k == id { lc } else { m.previous_sibling },
        next_sibling: if lc == Some(NodeId(k as usize)) { Some(NodeId(id as usize)) } else { m.next_sibling },
        first_child: if k == parent && lc is None { Some(NodeId(id as usize)) } else { m.first_child },
        last_child: if k == parent { Some(NodeId(id as usize)) } else { m.last_child },
        data: m.data,
    }
}

pub open spec fn linked_last(s1: Seq<Node>, parent: int, id: int) -> Seq<Node> {
    Seq::new(s1.len(), |k: int| linked_last_node(s1, parent, id, k))
}

/// What linking needs: `id` is detached, comes after `parent` and after its last child.
pub open spec fn can_link_last(s1: Seq<Node>, parent: int, id: int) -> bool {
    &&& nodes_wf(s1)
    &&& 1 <= parent < id < s1.len()
    &&& s1[id].parent is None
    &&& s1[id].previous_sibling is None
    &&& s1[id].next_sibling is None
    &&& link_in(s1[parent].last_child, 0, id)
}

pub proof fn lemma_link_last_pointwise(s1: Seq<Node>, parent: int, id: int)
    requires
        can_link_last(s1, parent, id),
    ensures
        spec_link_last(s1, parent, id) =~= linked_last(s1, parent, id),
{
    assert(node_links_ok(s1, parent));
    let r = spec_link_last(s1, parent, id);
    assert forall|k: int| 0 <= k < s1.len() implies #[trigger] r[k] == linked_last_node(s1, parent, id, k) by {
        assert((k as usize) as int == k);
    }
}

proof fn lemma_link_last_node_ok(s1: Seq<Node>, parent: int, id: int, i: int)
    requires
        can_link_last(s1, parent, id),
        0 <= i < s1.len(),
    ensures
        node_links_ok(linked_last(s1, parent, id), i),
{
    let r = linked_last(s1, parent, id);
    lemma_linked_ok(s1, parent);
    lemma_linked_ok(s1, id);
    lemma_linked_ok(s1, i);
    assert((i as usize) as int == i);
    assert((id as usize) as int == id);
    assert((parent as usize) as int == parent);
    if let Some(lc) = s1[parent].last_child {
        lemma_linked_ok(s1, lc.0 as int);
    }
    assert(node_order_ok(r, i));
    assert(agree_next(r, i));
    assert(agree_prev(r, i));
    assert(agree_first(r, i));
    assert(agree_last(r, i));
    assert(agree_parent(r, i));
}

pub proof fn lemma_link_last_wf(s1: Seq<Node>, parent: int, id: int)
    requires
        can_link_last(s1, parent, id),
    ensures
        nodes_wf(spec_link_last(s1, parent, id)),
        spec_link_last(s1, parent, id).len() == s1.len(),
        forall|k: int| 0 <= k < s1.len() ==> (#[trigger] spec_link_last(s1, parent, id)[k]).data == s1[k].data,
{
    lemma_link_last_pointwise(s1, parent, id);
    let r = linked_last(s1, parent, id);
    assert forall|i: int| 0 <= i < r.len() implies #[trigger] node_links_ok(r, i) by {
        lemma_link_last_node_ok(s1, parent, id, i);
    }
}

/// Node `k` after linking the detached node `id` right before `sibling`.
pub open spec fn linked_before_node(s1: Seq<Node>, sibling: int, id: int, k: int) -> Node {
    let pv = s1[sibling].previous_sibling;
    let sp = s1[sibling].parent;
    let m = s1[k];
    let kid = Some(NodeId(k as usize));
    Node {
        parent: if k == id { sp } else { m.parent },
        previous_sibling: if k == id { pv } else if k == sibling { Some(NodeId(id as usize)) } else { m.previous_sibling },
        next_sibling: if k == id { Some(NodeId(sibling as usize)) } else if pv == kid { Some(NodeId(id as usize)) } else { m.next_sibling },
        first_child: if pv is None && sp == kid { Some(NodeId(id as usize)) } else { m.first_child },
        last_child: m.last_child,
        data: m.data,
    }
}

pub open spec fn linked_before(s1: Seq<Node>, sibling: int, id: int) -> Seq<Node> {
    Seq::new(s1.len(), |k: int| linked_before_node(s1, sibling, id, k))
}

/// What linking before a sibling needs: `id` is detached and comes after the sibling's
/// parent and preceding sibling, and before the sibling.
pub open spec fn can_link_before(s1: Seq<Node>, sibling: int, id: int) -> bool {
    &&& nodes_wf(s1)
    &&& 1 <= id < sibling < s1.len()
    &&& s1[id].parent is None
    &&& s1[id].previous_sibling is None
    &&& s1[id].next_sibling is None
    &&& link_in(s1[sibling].parent, 1, id)
    &&& link_in(s1[sibling].previous_sibling, 1, id)
}

pub proof fn lemma_link_before_pointwise(s1: Seq<Node>, sibling: int, id: int)
    requires
        can_link_before(s1, sibling, id),
    ensures
        spec_link_before(s1, sibling, id) =~= linked_before(s1, sibling, id),
{
    lemma_linked_ok(s1, sibling);
    let r = spec_link_before(s1, sibling, id);
    assert forall|k: int| 0 <= k < s1.len() implies #[trigger] r[k] == linked_before_node(s1, sibling, id, k) by {
        assert((k as usize) as int == k);
    }
}

proof fn lemma_link_before_node_ok(s1: Seq<Node>, sibling: int, id: int, i: int)
    requires
        can_link_before(s1, sibling, id),
        0 <= i < s1.len(),
    ensures
        node_links_ok(linked_before(s1, sibling, id), i),
{
    let r = linked_before(s1, sibling, id);
    lemma_linked_ok(s1, sibling);
    lemma_linked_ok(s1, id);
    lemma_linked_ok(s1, i);
    assert((i as usize) as int == i);
    assert((id as usize) as int == id);
    assert((sibling as usize) as int == sibling);
    assert(node_order_ok(r, i));
    assert(agree_next(r, i));
    assert(agree_prev(r, i));
    assert(agree_first(r, i));
    assert(agree_last(r, i));
    assert(agree_parent(r, i));
}

pub proof fn lemma_link_before_wf(s1: Seq<Node>, sibling: int, id: int)
    requires
        can_link_before(s1, sibling, id),
    ensures
        nodes_wf(spec_link_before(s1, sibling, id)),
        spec_link_before(s1, sibling, id).len() == s1.len(),
        forall|k: int| 0 <= k < s1.len() ==> (#[trigger] spec_link_before(s1, sibling, id)[k]).data == s1[k].data,
{
    lemma_link_before_pointwise(s1, sibling, id);
    let r = linked_before(s1, sibling, id);
    assert forall|i: int| 0 <= i < r.len() implies #[trigger] node_links_ok(r, i) by {
        lemma_link_before_node_ok(s1, sibling, id, i);
    }
}

impl Document {
    pub open spec fn wf(&self) -> bool {
        &&& nodes_wf(self.nodes@)
        &&& ids_in(self.elements@, self.nodes.len() as int)
        &&& ids_in(self.styles@, self.nodes.len() as int)
        &&& ids_in(self.linked_stylesheets@, self.nodes.len() as int)
    }

    /// An empty document: a placeholder node and the document node.
    pub fn with_capacity(capacity: usize) -> (r: Document)
        ensures
            r.wf(),
            r.nodes.len() == 2,
            r.nodes@ == seq![Node::new_spec(NodeData::Document), Node::new_spec(NodeData::Document)],
            r.nodes@[0].data is Document,
            r.nodes@[1].data is Document,
            r.nodes@[1].first_child is None,
            r.nodes@[1].last_child is None,
            r.nodes@[1].parent is None,
            r.elements@.len() == 0,
            r.styles@.len() == 0,
            r.linked_stylesheets@.len() == 0,
    {
        let mut nodes = Vec::with_capacity(capacity);
        nodes.push(Node::new(NodeData::Document));
        nodes.push(Node::new(NodeData::Document));
        let r = Document {
            nodes,
            elements: Vec::with_capacity(capacity),
            styles: Vec::new(),
            linked_stylesheets: Vec::new(),
        };
        assert forall|i: int| 0 <= i < r.nodes@.len() implies #[trigger] node_links_ok(
            r.nodes@,
            i,
        ) by {}
        r
    }

    /// The node with the given id.
    pub fn node(&self, id: NodeId) -> (r: &Node)
        requires
            id.0 < self.nodes.len(),
        ensures
            *r == self.nodes@[id.0 as int],
    {
        &self.nodes[id.0]
    }

    /// Adds a node with no links, returning its id.
    pub fn push_node(&mut self, data: NodeData) -> (r: NodeId)
        requires
            old(self).wf(),
        ensures
            final(self).wf(),
            r.0 == old(self).nodes.len(),
            final(self).nodes@ == old(self).nodes@.push(Node::new_spec(data)),
            final(self).elements@ == old(self).elements@,
            final(self).styles@ == old(self).styles@,
            final(self).linked_stylesheets@ == old(self).linked_stylesheets@,
    {
        let next_index = self.nodes.len();
        self.nodes.push(Node::new(data));
        assert(self.nodes.len() <= usize::MAX);
        proof {
            let s = self.nodes@;
            assert forall|i: int| 0 <= i < s.len() implies #[trigger] node_links_ok(s, i) by {
                if i < s.len() - 1 {
                    assert(node_links_ok(old(self).nodes@, i));
                }
            }
        }
        NodeId(next_index)
    }

    /// Records an element node.
    pub fn push_element_id(&mut self, node: NodeId)
        requires
            old(self).wf(),
            1 <= node.0 < old(self).nodes.len(),
        ensures
            final(self).wf(),
            final(self).nodes@ == old(self).nodes@,
            final(self).elements@ == old(self).elements@.push(node),
            final(self).styles@ == old(self).styles@,
            final(self).linked_stylesheets@ == old(self).linked_stylesheets@,
    {
        self.elements.push(node);
    }

    /// Records a `style` element node.
    pub fn add_style(&mut self, node: NodeId)
        requires
            old(self).wf(),
            1 <= node.0 < old(self).nodes.len(),
        ensures
            final(self).wf(),
            final(self).nodes@ == old(self).nodes@,
            final(self).elements@ == old(self).elements@,
            final(self).styles@ == old(self).styles@.push(node),
            final(self).linked_stylesheets@ == old(self).linked_stylesheets@,
    {
        self.styles.push(node);
    }

    /// Records a `link` element node that refers to a stylesheet.
    pub fn add_linked_stylesheet(&mut self, node: NodeId)
        requires
            old(self).wf(),
            1 <= node.0 < old(self).nodes.len(),
        ensures
            final(self).wf(),
            final(self).nodes@ == old(self).nodes@,
            final(self).elements@ == old(self).elements@,
            final(self).styles@ == old(self).styles@,
            final(self).linked_stylesheets@ == old(self).linked_stylesheets@.push(node),
    {
        self.linked_stylesheets.push(node);
    }

    /// Detaches a node from its parent and siblings.
    pub fn detach(&mut self, node: NodeId)
        requires
            old(self).wf(),
            1 <= node.0 < old(self).nodes.len(),
        ensures
            final(self).wf(),
            final(self).nodes@ == spec_detach(old(self).nodes@, node.0 as int),
            final(self).elements@ == old(self).elements@,
            final(self).styles@ == old(self).styles@,
            final(self).linked_stylesheets@ == old(self).linked_stylesheets@,
    {
        let ghost s0 = self.nodes@;
        let id = node.0;
        let parent = self.nodes[id].parent;
        let previous_sibling = self.nodes[id].previous_sibling;
        let next_sibling = self.nodes[id].next_sibling;
        assert(node_links_ok(s0, id as int));
        self.nodes[id].parent = None;
        self.nodes[id].previous_sibling = None;
        self.nodes[id].next_sibling = None;
        if let Some(next) = next_sibling {
            self.nodes[next.0].previous_sibling = previous_sibling;
        } else if let Some(p) = parent {
            self.nodes[p.0].last_child = previous_sibling;
        }
        if let Some(prev) = previous_sibling {
            self.nodes[prev.0].next_sibling = next_sibling;
        } else if let Some(p) = parent {
            self.nodes[p.0].first_child = next_sibling;
        }
        proof {
            assert(self.nodes@ == spec_detach(s0, id as int));
            lemma_detach_wf(s0, id as int);
        }
    }

    /// Detaches `node` and links it as the last child of `parent`.
    pub fn append(&mut self, parent: NodeId, node: NodeId)
        requires
            old(self).wf(),
            1 <= parent.0 < node.0 < old(self).nodes.len(),
            link_in(old(self).nodes@[parent.0 as int].last_child, 0, node.0 as int)
                || old(self).nodes@[parent.0 as int].last_child == Some(node),
        ensures
            final(self).wf(),
            final(self).nodes@ == spec_append(old(self).nodes@, parent.0 as int, node.0 as int),
            final(self).nodes.len() == old(self).nodes.len(),
            forall|k: int|
                0 <= k < old(self).nodes.len() ==> (#[trigger] final(self).nodes@[k]).data == old(
                    self,
                ).nodes@[k].data,
            final(self).elements@ == old(self).elements@,
            final(self).styles@ == old(self).styles@,
            final(self).linked_stylesheets@ == old(self).linked_stylesheets@,
    {
        let ghost s0 = self.nodes@;
        self.detach(node);
        let ghost s1 = self.nodes@;
        proof {
            lemma_detach_pointwise(s0, node.0 as int);
            lemma_linked_ok(s0, node.0 as int);
            lemma_linked_ok(s0, parent.0 as int);
            assert((parent.0 as usize) as int == parent.0);
            assert(s1[parent.0 as int] == detached_node(s0, node.0 as int, parent.0 as int));
            assert(s1[node.0 as int] == detached_node(s0, node.0 as int, node.0 as int));
            assert(can_link_last(s1, parent.0 as int, node.0 as int));
        }
        self.nodes[node.0].parent = Some(parent);
        let last = self.nodes[parent.0].last_child;
        assert(node_links_ok(s1, parent.0 as int));
        match last {
            Some(lc) => {
                self.nodes[node.0].previous_sibling = Some(lc);
                self.nodes[lc.0].next_sibling = Some(node);
            },
            None => {
                self.nodes[parent.0].first_child = Some(node);
            },
        }
        self.nodes[parent.0].last_child = Some(node);
        proof {
            assert(self.nodes@ == spec_link_last(s1, parent.0 as int, node.0 as int));
            lemma_link_last_wf(s1, parent.0 as int, node.0 as int);
        }
    }

    /// Detaches `node` and links it right before `sibling`.
    pub fn insert_before(&mut self, sibling: NodeId, node: NodeId)
        requires
            old(self).wf(),
            1 <= sibling.0 < old(self).nodes.len(),
            1 <= node.0 < sibling.0,
            link_in(old(self).nodes@[sibling.0 as int].parent, 1, node.0 as int),
            link_in(old(self).nodes@[sibling.0 as int].previous_sibling, 1, node.0 as int)
                || old(self).nodes@[sibling.0 as int].previous_sibling == Some(node),
        ensures
            final(self).wf(),
            final(self).nodes@ == spec_insert_before(
                old(self).nodes@,
                sibling.0 as int,
                node.0 as int,
            ),
            final(self).elements@ == old(self).elements@,
            final(self).styles@ == old(self).styles@,
            final(self).linked_stylesheets@ == old(self).linked_stylesheets@,
    {
        let ghost s0 = self.nodes@;
        self.detach(node);
        let ghost s1 = self.nodes@;
        proof {
            lemma_detach_pointwise(s0, node.0 as int);
            lemma_linked_ok(s0, node.0 as int);
            lemma_linked_ok(s0, sibling.0 as int);
            assert((sibling.0 as usize) as int == sibling.0);
            assert(s1[sibling.0 as int] == detached_node(s0, node.0 as int, sibling.0 as int));
            assert(s1[node.0 as int] == detached_node(s0, node.0 as int, node.0 as int));
            assert(can_link_before(s1, sibling.0 as int, node.0 as int));
        }
        let sparent = self.nodes[sibling.0].parent;
        self.nodes[node.0].parent = sparent;
        self.nodes[node.0].next_sibling = Some(sibling);
        let prev = self.nodes[sibling.0].previous_sibling;
        match prev {
            Some(pv) => {
                self.nodes[node.0].previous_sibling = Some(pv);
                self.nodes[pv.0].next_sibling = Some(node);
            },
            None => {
                if let Some(p) = sparent {
                    self.nodes[p.0].first_child = Some(node);
                }
            },
        }
        self.nodes[sibling.0].previous_sibling = Some(node);
        proof {
            assert(self.nodes@ == spec_link_before(s1, sibling.0 as int, node.0 as int));
            lemma_link_before_wf(s1, sibling.0 as int, node.0 as int);
        }
    }
}

/// The nodes after moving the children of `node`, first to last, to the end of the children
/// of `new_parent`, at most `fuel` of them.
pub open spec fn reparented(nodes: Seq<Node>, node: int, new_parent: int, fuel: nat) -> Seq<Node>
    decreases fuel,
{
    if fuel == 0 {
        nodes
    } else {
        match nodes[node].first_child {
            Some(c) => reparented(spec_append(nodes, new_parent, c.0 as int), node, new_parent, (fuel - 1) as nat),
            None => nodes,
        }
    }
}

impl Document {
    /// Moves all the children of `node`, in order, to the end of the children of
    /// `new_parent`.
    pub fn reparent_children(&mut self, node: NodeId, new_parent: NodeId)
        requires
            old(self).wf(),
            1 <= new_parent.0 < node.0 < old(self).nodes.len(),
            match (old(self).nodes@[new_parent.0 as int].last_child, old(self).nodes@[node.0 as int].first_child) {
                (Some(l), Some(f)) => l.0 < f.0,
                _ => true,
            },
        ensures
            final(self).wf(),
            final(self).nodes@ == reparented(
                old(self).nodes@,
                node.0 as int,
                new_parent.0 as int,
                old(self).nodes.len() as nat,
            ),
            final(self).nodes@[node.0 as int].first_child is None,
            final(self).nodes.len() == old(self).nodes.len(),
            forall|k: int| 0 <= k < old(self).nodes.len() ==> (#[trigger] final(self).nodes@[k]).data == old(self).nodes@[k].data,
            final(self).elements@ == old(self).elements@,
            final(self).styles@ == old(self).styles@,
            final(self).linked_stylesheets@ == old(self).linked_stylesheets@,
    {
        let mut next_child = self.nodes[node.0].first_child;
        let ghost total = old(self).nodes.len() as nat;
        let ghost mut steps: nat = 0;
        proof {
            lemma_linked_ok(self.nodes@, node.0 as int);
            lemma_linked_ok(self.nodes@, new_parent.0 as int);
        }
        while next_child.is_some()
            invariant
                self.wf(),
                total == old(self).nodes.len(),
                steps <= total,
                next_child matches Some(c) ==> steps < c.0,
                reparented(old(self).nodes@, node.0 as int, new_parent.0 as int, total) == reparented(
                    self.nodes@,
                    node.0 as int,
                    new_parent.0 as int,
                    (total - steps) as nat,
                ),
                self.nodes.len() == old(self).nodes.len(),
                1 <= new_parent.0 < node.0 < self.nodes.len(),
                forall|k: int| 0 <= k < old(self).nodes.len() ==> (#[trigger] self.nodes@[k]).data == old(self).nodes@[k].data,
                self.elements@ == old(self).elements@,
                self.styles@ == old(self).styles@,
                self.linked_stylesheets@ == old(self).linked_stylesheets@,
                next_child == self.nodes@[node.0 as int].first_child,
                next_child matches Some(c) ==> link_in(self.nodes@[new_parent.0 as int].last_child, 0, c.0 as int),
            decreases self.nodes.len() - match next_child { Some(c) => c.0 as int, None => self.nodes.len() as int },
        {
            let child = next_child.unwrap();
            let ghost s0 = self.nodes@;
            proof {
                lemma_linked_ok(s0, node.0 as int);
                lemma_linked_ok(s0, child.0 as int);
            }
            let next = self.nodes[child.0].next_sibling;
            assert(node_order_ok(s0, child.0 as int));
            assert(reparented(s0, node.0 as int, new_parent.0 as int, (total - steps) as nat) == reparented(
                spec_append(s0, new_parent.0 as int, child.0 as int),
                node.0 as int,
                new_parent.0 as int,
                (total - steps - 1) as nat,
            ));
            self.append(new_parent, child);
            proof {
                let s1 = spec_detach(s0, child.0 as int);
                lemma_detach_pointwise(s0, child.0 as int);
                lemma_detach_wf(s0, child.0 as int);
                lemma_linked_ok(s0, new_parent.0 as int);
                assert((node.0 as usize) as int == node.0);
                assert(s1[new_parent.0 as int] == detached_node(s0, child.0 as int, new_parent.0 as int));
                assert(s1[child.0 as int] == detached_node(s0, child.0 as int, child.0 as int));
                assert(s1[node.0 as int] == detached_node(s0, child.0 as int, node.0 as int));
                assert(can_link_last(s1, new_parent.0 as int, child.0 as int));
                lemma_link_last_pointwise(s1, new_parent.0 as int, child.0 as int);
                assert(self.nodes@[node.0 as int] == linked_last_node(s1, new_parent.0 as int, child.0 as int, node.0 as int));
                assert(self.nodes@[new_parent.0 as int] == linked_last_node(s1, new_parent.0 as int, child.0 as int, new_parent.0 as int));
            }
            next_child = next;
            proof {
                steps = steps + 1;
            }
        }
        assert(reparented(self.nodes@, node.0 as int, new_parent.0 as int, (total - steps) as nat) == self.nodes@);
    }
}

impl Node {
    pub open spec fn new_spec(data: NodeData) -> Node {
        Node {
            parent: None,
            previous_sibling: None,
            next_sibling: None,
            first_child: None,
            last_child: None,
            data,
        }
    }
}

} // verus!
