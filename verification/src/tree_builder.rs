//! Building the document tree from a parsed HTML tree.
//!
//! The edges of the parsed tree are read in tree order; each node becomes a node of the
//! arena, appended as the last child of the node whose start came last and whose end has not
//! come yet, so that a node always comes after its parent and its preceding siblings. While
//! elements are created, `style` elements and `link` elements that refer to a stylesheet are
//! recorded, except those marked `data-css-inline="ignore"`, which are also left out of
//! inlining. The parser keeps the contents of a `template` element in a fragment of their
//! own; their edges are read right after the start of the element, so that they become its
//! children. `build_step` states what each edge does, `edges_to` which edges are read, and
//! `built_from` that a document is what those edges build.
use vstd::prelude::*;
use crate::dom::{
    Attribute, Attributes, Class, Document, ElementInfo, Node, NodeData, NodeId, QualName,
    node_links_ok,
};
use crate::html::{
    attribute_at, attribute_count_at, element_at, element_name_at, html_events, is_start, node_at,
    parse_html, raw_is, started, starts_element, template_tree, HtmlEvent, HtmlTree, NodeView,
    ParsedElement, RawNode,
};
use crate::serializer::{attrs_fit, doc_attrs_fit, html_ns};
use crate::text::{str_chars, string_is};

verus! {

/// Whether an element with these attributes is left out of inlining:
/// `data-css-inline="ignore"`.
pub open spec fn ignored(attrs: Seq<Attribute>) -> bool {
    exists|k: int|
        0 <= k < attrs.len() && #[trigger] attrs[k].name.local@ == "data-css-inline"@
            && attrs[k].value@ == "ignore"@
}

/// Whether an element with these attributes refers to a stylesheet: `rel="stylesheet"` and a
/// non-empty `href`.
pub open spec fn refers_to_stylesheet(attrs: Seq<Attribute>) -> bool {
    &&& exists|k: int|
        0 <= k < attrs.len() && #[trigger] attrs[k].name.local@ == "rel"@ && attrs[k].value@
            == "stylesheet"@
    &&& exists|k: int|
        0 <= k < attrs.len() && #[trigger] attrs[k].name.local@ == "href"@ && attrs[k].value@.len()
            > 0
}

/// `data-css-inline="ignore"` is among the attributes.
pub fn is_ignored(attrs: &Vec<Attribute>) -> (r: bool)
    ensures
        r == ignored(attrs@),
{
    let mut i: usize = 0;
    while i < attrs.len()
        invariant
            i <= attrs.len(),
            forall|k: int|
                0 <= k < i ==> !(#[trigger] attrs@[k].name.local@ == "data-css-inline"@
                    && attrs@[k].value@ == "ignore"@),
        decreases attrs.len() - i,
    {
        if string_is(&attrs[i].name.local, "data-css-inline") && string_is(&attrs[i].value, "ignore") {
            return true;
        }
        i += 1;
    }
    false
}

/// The attributes refer to a stylesheet.
pub fn is_stylesheet_link(attrs: &Vec<Attribute>) -> (r: bool)
    ensures
        r == refers_to_stylesheet(attrs@),
{
    let mut rel = false;
    let mut href = false;
    let mut i: usize = 0;
    while i < attrs.len()
        invariant
            i <= attrs.len(),
            rel == exists|k: int|
                0 <= k < i && #[trigger] attrs@[k].name.local@ == "rel"@ && attrs@[k].value@
                    == "stylesheet"@,
            href == exists|k: int|
                0 <= k < i && #[trigger] attrs@[k].name.local@ == "href"@
                    && attrs@[k].value@.len() > 0,
        decreases attrs.len() - i,
    {
        if string_is(&attrs[i].name.local, "rel") && string_is(&attrs[i].value, "stylesheet") {
            rel = true;
        }
        if string_is(&attrs[i].name.local, "href") && !attrs[i].value.as_str().is_empty() {
            href = true;
        }
        i += 1;
    }
    rel && href
}

/// The attributes of a parsed element as plain values: namespace URL, local name, value.
pub open spec fn attr_views(list: Seq<Attribute>) -> Seq<(Seq<char>, Seq<char>, Seq<char>)> {
    list.map_values(|a: Attribute| (a.name.ns@, a.name.local@, a.value@))
}

/// The attributes that are kept, in order: those whose value has fewer characters than the
/// largest `usize`.
pub open spec fn kept_attributes(attrs: Seq<(Seq<char>, Seq<char>, Seq<char>)>) -> Seq<
    (Seq<char>, Seq<char>, Seq<char>),
>
    decreases attrs.len(),
{
    if attrs.len() == 0 {
        seq![]
    } else {
        kept_attributes(attrs.drop_last()) + if attrs.last().2.len() < usize::MAX {
            seq![attrs.last()]
        } else {
            seq![]
        }
    }
}

/// The attributes of the element that starts at edge `i`, in order.
fn read_attributes(t: &HtmlTree, i: usize) -> (r: Vec<Attribute>)
    requires
        starts_element(t, i as int),
    ensures
        attrs_fit(r@),
        attr_views(r@) == kept_attributes(started(t, i as int)->attrs),
{
    let ghost all = started(t, i as int)->attrs;
    let count = attribute_count_at(t, i);
    let mut attrs: Vec<Attribute> = Vec::new();
    let mut k: usize = 0;
    assert(all.subrange(0, 0) =~= Seq::<(Seq<char>, Seq<char>, Seq<char>)>::empty());
    assert(attr_views(attrs@) =~= Seq::<(Seq<char>, Seq<char>, Seq<char>)>::empty());
    while k < count
        invariant
            k <= count,
            count == all.len(),
            all == started(t, i as int)->attrs,
            starts_element(t, i as int),
            attrs_fit(attrs@),
            attr_views(attrs@) == kept_attributes(all.subrange(0, k as int)),
        decreases count - k,
    {
        let (ns, local, value) = attribute_at(t, i, k);
        let ghost before = attrs@;
        proof {
            let cur = all.subrange(0, k + 1);
            assert(cur.drop_last() =~= all.subrange(0, k as int));
            assert(cur.last() == all[k as int]);
        }
        let chars = str_chars(value.as_str());
        // A value with as many characters as the largest `usize` cannot be held.
        if chars.len() < usize::MAX {
            attrs.push(Attribute { name: QualName { ns, local }, value });
            assert(attr_views(attrs@) =~= attr_views(before).push(all[k as int]));
        } else {
            assert(kept_attributes(all.subrange(0, k + 1)) =~= kept_attributes(all.subrange(0, k as int)));
        }
        k += 1;
    }
    assert(all.subrange(0, count as int) =~= all);
    attrs
}

/// The index of the first `class` attribute at or after `i`, or `-1`.
pub open spec fn class_index_from(attrs: Seq<Attribute>, i: int) -> int
    decreases attrs.len() - i,
{
    if i < 0 || i >= attrs.len() {
        -1
    } else if attrs[i].name.local@ == "class"@ {
        i
    } else {
        class_index_from(attrs, i + 1)
    }
}

/// The index of the first `class` attribute, or `-1`.
pub open spec fn class_index(attrs: Seq<Attribute>) -> int {
    class_index_from(attrs, 0)
}

/// Takes the first `class` attribute out of the list, moving the last attribute into its
/// place; without a `class` attribute the list stays as it is.
pub fn split_class(attrs: Vec<Attribute>) -> (r: (Vec<Attribute>, Option<Class>))
    requires
        attrs_fit(attrs@),
    ensures
        attrs_fit(r.0@),
        class_index(attrs@) < 0 ==> r.1 is None && r.0@ == attrs@,
        class_index(attrs@) >= 0 ==> ({
            let k = class_index(attrs@);
            &&& r.1 matches Some(c) && c.value == attrs@[k].value
            &&& r.0@ == attrs@.update(k, attrs@.last()).drop_last()
        }),
{
    let ghost start = attrs@;
    let mut list = attrs;
    let mut i: usize = 0;
    while i < list.len()
        invariant
            i <= list.len(),
            attrs_fit(list@),
            list@ == start,
            start == attrs@,
            class_index(start) == class_index_from(start, i as int),
        decreases list.len() - i,
    {
        if string_is(&list[i].name.local, "class") {
            let ghost before = list@;
            let removed = list.swap_remove(i);
            proof {
                assert forall|k: int| 0 <= k < list@.len() implies #[trigger] list@[k].value@.len()
                    < usize::MAX by {
                    if k == i {
                        assert(list@[k] == before.last());
                        assert(before[before.len() - 1].value@.len() < usize::MAX);
                    } else {
                        assert(list@[k] == before[k]);
                    }
                }
            }
            assert(list@ =~= before.update(i as int, before.last()).drop_last());
            assert(class_index_from(start, i as int) == i);
            assert(removed == start[i as int]);
            return (list, Some(Class { value: removed.value }));
        }
        assert(class_index_from(start, i as int) == class_index_from(start, i + 1));
        i += 1;
    }
    assert(class_index_from(start, i as int) == -1);
    (list, None)
}

/// The document built from a parsed tree, with the tree and, for each element of the
/// document in the order of `document.elements`, the parsed element it was made from.
pub struct ParsedDocument {
    pub document: Document,
    pub tree: HtmlTree,
    pub parsed_elements: Vec<ParsedElement>,
}

impl ParsedDocument {
    pub open spec fn wf(&self) -> bool {
        &&& self.document.wf()
        &&& doc_attrs_fit(self.document.nodes@)
        &&& self.parsed_elements.len() == self.document.elements.len()
        &&& self.document.nodes@[1].data is Document
        &&& forall|e: int|
            0 <= e < self.parsed_elements.len() ==> (#[trigger] self.parsed_elements@[e]).source()
                == self.tree.source() && self.parsed_elements@[e].context() == self.tree.context()
    }
}

/// A node is an HTML element with this local name that is not marked
/// `data-css-inline="ignore"`.
pub open spec fn is_inlined_element(n: Node, local: Seq<char>) -> bool {
    match n.data {
        NodeData::Element { element, inlining_ignored } => !inlining_ignored && element.name.ns@
            == html_ns() && element.name.local@ == local,
        _ => false,
    }
}

/// What the document records points at the right nodes: `elements` at element nodes,
/// `styles` at `style` elements and `linked_stylesheets` at `link` elements, none of the
/// last two marked `data-css-inline="ignore"`.
pub open spec fn records_ok(d: Document) -> bool {
    &&& forall|k: int| 0 <= k < d.elements.len() ==> d.nodes@[(#[trigger] d.elements@[k]).0 as int].data is Element
    &&& forall|k: int| 0 <= k < d.styles.len() ==> is_inlined_element(d.nodes@[(#[trigger] d.styles@[k]).0 as int], "style"@)
    &&& forall|k: int|
        0 <= k < d.linked_stylesheets.len() ==> is_inlined_element(
            d.nodes@[(#[trigger] d.linked_stylesheets@[k]).0 as int],
            "link"@,
        )
}

/// `after` is `before` with one more node, linked as the last child of `parent`.
pub open spec fn appended_node(before: Seq<Node>, parent: int, after: Seq<Node>) -> bool {
    &&& after.len() == before.len() + 1
    &&& after == crate::dom::spec_append(
        before.push(Node::new_spec(after[before.len() as int].data)),
        parent,
        before.len() as int,
    )
}

/// The attributes `a` are the list `list` with its first `class` attribute taken out into
/// `a.class`, the last attribute moved into its place (`split_class`).
pub open spec fn split_as(list: Seq<Attribute>, a: Attributes) -> bool {
    if class_index(list) < 0 {
        a.class is None && a.attributes@ == list
    } else {
        &&& a.class matches Some(c) && c.value == list[class_index(list)].value
        &&& a.attributes@ == list.update(class_index(list), list.last()).drop_last()
    }
}

/// The data of a node made from the parsed node `v`: the same kind with the same texts; for
/// an element, its name, its kept attributes with the `class` attribute apart, and whether it
/// is marked `data-css-inline="ignore"`.
pub open spec fn node_built(data: NodeData, v: NodeView) -> bool {
    match v {
        NodeView::Element { ns, local, attrs } => data matches NodeData::Element { element, inlining_ignored }
            && element.name.ns@ == ns && element.name.local@ == local
            && inlining_ignored == ignored(element.attributes.attributes@)
            && exists|list: Seq<Attribute>|
                #[trigger] attr_views(list) == kept_attributes(attrs) && split_as(list, element.attributes),
        NodeView::Text(s) => data matches NodeData::Text { text } && text@ == s,
        NodeView::Comment(s) => data matches NodeData::Comment { text } && text@ == s,
        NodeView::Doctype(s) => data matches NodeData::Doctype { name } && name@ == s,
        NodeView::ProcessingInstruction(a, b) => data matches NodeData::ProcessingInstruction {
            target,
            data,
        } && target@ == a && data@ == b,
        _ => false,
    }
}

/// What building has made after some edges: the nodes, the records of the document, where
/// each element starts (the path of its tree and the edge), and the nodes whose start came
/// and whose end did not.
pub struct BuildState {
    pub nodes: Seq<Node>,
    pub elements: Seq<NodeId>,
    pub styles: Seq<NodeId>,
    pub links: Seq<NodeId>,
    pub element_events: Seq<(Seq<int>, int)>,
    pub open: Seq<NodeId>,
}

/// The state before any edge: the placeholder node and the document node.
pub open spec fn initial_state() -> BuildState {
    BuildState {
        nodes: seq![Node::new_spec(NodeData::Document), Node::new_spec(NodeData::Document)],
        elements: seq![],
        styles: seq![],
        links: seq![],
        element_events: seq![],
        open: seq![],
    }
}

/// The node that new nodes go into: the last open one, or the document node.
pub open spec fn parent_of(open: Seq<NodeId>) -> int {
    if open.len() == 0 {
        1
    } else {
        open.last().0 as int
    }
}

/// The parsed node stands for the document node itself: the document, or a fragment's
/// document or the element that holds the fragment.
pub open spec fn is_root(v: NodeView, open: Seq<NodeId>, fragment: bool) -> bool {
    v is Document || v is Fragment || (fragment && open.len() == 1 && v is Element)
}

/// The state `s` with other open nodes.
pub open spec fn with_open(s: BuildState, open: Seq<NodeId>) -> BuildState {
    BuildState {
        nodes: s.nodes,
        elements: s.elements,
        styles: s.styles,
        links: s.links,
        element_events: s.element_events,
        open,
    }
}

/// An edge as building reads it: the path of its tree, its index there, and the edge.
pub type Edge = (Seq<int>, int, HtmlEvent);

/// What an edge does to the state `s`: an end closes the last open node; the start of the
/// document opens the document node; the start of another node appends a node made from it
/// to the last open node and opens it, and an element is recorded, with where it starts, and
/// among the `style` elements or the stylesheet links when it is one.
pub open spec fn build_step(s: BuildState, edge: Edge, fragment: bool, t: BuildState) -> bool {
    match edge.2 {
        HtmlEvent::End => t == with_open(s, if s.open.len() > 0 { s.open.drop_last() } else { s.open }),
        HtmlEvent::Start(v) => if is_root(v, s.open, fragment) {
            t == with_open(s, s.open.push(NodeId(1)))
        } else {
            let id = s.nodes.len() as int;
            &&& appended_node(s.nodes, parent_of(s.open), t.nodes)
            &&& node_built(t.nodes[id].data, v)
            &&& t.open == s.open.push(NodeId(id as usize))
            &&& if v is Element {
                &&& t.elements == s.elements.push(NodeId(id as usize))
                &&& t.element_events == s.element_events.push((edge.0, edge.1))
                &&& t.styles == if is_inlined_element(t.nodes[id], "style"@) {
                    s.styles.push(NodeId(id as usize))
                } else {
                    s.styles
                }
                &&& t.links == if is_inlined_element(t.nodes[id], "link"@) && refers_to_stylesheet(
                    t.nodes[id].data->element.attributes.attributes@,
                ) {
                    s.links.push(NodeId(id as usize))
                } else {
                    s.links
                }
            } else {
                &&& t.elements == s.elements
                &&& t.element_events == s.element_events
                &&& t.styles == s.styles
                &&& t.links == s.links
            }
        },
    }
}

/// `states` are the states that the edges go through from `s0`, one after each edge.
pub open spec fn run_from(s0: BuildState, edges: Seq<Edge>, fragment: bool, states: Seq<BuildState>) -> bool {
    &&& states.len() == edges.len() + 1
    &&& states[0] == s0
    &&& forall|j: int| 0 <= j < edges.len() ==> #[trigger] build_step(states[j], edges[j], fragment, states[j + 1])
}

/// The node is an HTML `template` element.
pub open spec fn is_template(v: NodeView) -> bool {
    v matches NodeView::Element { ns, local, .. } && ns == html_ns() && local == "template"@
}

/// The edges that building reads, in order, from the first `to` edges of the tree at `path`:
/// each edge, and right after the start of a `template` element the edges of its contents,
/// down to `depth` nested contents.
pub open spec fn edges_to(
    html: Seq<char>,
    context: Option<(Seq<char>, Seq<char>)>,
    path: Seq<int>,
    to: int,
    depth: nat,
) -> Seq<Edge>
    decreases depth, to,
{
    if to <= 0 {
        seq![]
    } else {
        let events = html_events(html, context, path);
        let j = to - 1;
        edges_to(html, context, path, j, depth) + seq![(path, j, events[j])] + if depth > 0
            && events[j] is Start && is_template(events[j]->Start_0) {
            let inner = path.push(j);
            edges_to(html, context, inner, html_events(html, context, inner).len() as int, (depth - 1) as nat)
        } else {
            seq![]
        }
    }
}

/// How deep nested `template` contents are read.
pub open spec fn template_depth() -> nat {
    usize::MAX as nat
}

/// The state of a document under construction.
pub open spec fn state_of(doc: Document, elems: Seq<ParsedElement>, open: Seq<NodeId>) -> BuildState {
    BuildState {
        nodes: doc.nodes@,
        elements: doc.elements@,
        styles: doc.styles@,
        links: doc.linked_stylesheets@,
        element_events: elems.map_values(|p: ParsedElement| (p.path(), p.index())),
        open,
    }
}

/// The document is what the edges of its parsed tree build.
pub open spec fn built_from(p: ParsedDocument, fragment: bool) -> bool {
    exists|states: Seq<BuildState>|
        #[trigger] run_from(
            initial_state(),
            edges_to(p.tree.source(), p.tree.context(), seq![], p.tree.events().len() as int, template_depth()),
            fragment,
            states,
        ) && states.last() == state_of(p.document, p.parsed_elements@, states.last().open)
}

/// Running `a` then `b` is running `a + b`.
pub proof fn lemma_run_concat(
    s0: BuildState,
    a: Seq<Edge>,
    b: Seq<Edge>,
    fragment: bool,
    st1: Seq<BuildState>,
    st2: Seq<BuildState>,
)
    requires
        run_from(s0, a, fragment, st1),
        run_from(st1.last(), b, fragment, st2),
    ensures
        run_from(s0, a + b, fragment, st1 + st2.drop_first()),
        (st1 + st2.drop_first()).last() == st2.last(),
{
    let st = st1 + st2.drop_first();
    let e = a + b;
    assert forall|j: int| 0 <= j < e.len() implies #[trigger] build_step(st[j], e[j], fragment, st[j + 1]) by {
        if j < a.len() {
            assert(e[j] == a[j]);
            assert(st[j] == st1[j]);
            assert(st[j + 1] == st1[j + 1]);
            assert(build_step(st1[j], a[j], fragment, st1[j + 1]));
        } else {
            let k = j - a.len();
            assert(e[j] == b[k]);
            assert(st[j] == st2[k]);
            assert(st[j + 1] == st2[k + 1]);
            assert(build_step(st2[k], b[k], fragment, st2[k + 1]));
        }
    }
}

/// The state of building, as far as `add_node` relies on it.
pub open spec fn building(doc: Document, elems: Seq<ParsedElement>, t: &HtmlTree) -> bool {
    &&& doc.wf()
    &&& doc_attrs_fit(doc.nodes@)
    &&& doc.nodes@[1].data is Document
    &&& records_ok(doc)
    &&& elems.len() == doc.elements.len()
    &&& forall|e: int|
        0 <= e < elems.len() ==> (#[trigger] elems[e]).source() == t.source() && elems[e].context() == t.context()
    &&& forall|e: int|
        0 <= e < elems.len() ==> node_built(
            doc.nodes@[doc.elements@[e].0 as int].data,
            html_events((#[trigger] elems[e]).source(), elems[e].context(), elems[e].path())[elems[e].index()]->Start_0,
        )
}

/// Makes the node for the parsed node `raw` that starts at edge `i` and links it as the last
/// child of `parent`; an element is recorded with where it starts, and among the `style`
/// elements or the stylesheet links when it is one.
fn add_node(
    doc: &mut Document,
    elems: &mut Vec<ParsedElement>,
    t: &HtmlTree,
    i: usize,
    raw: RawNode,
    parent: NodeId,
) -> (r: NodeId)
    requires
        building(*old(doc), old(elems)@, t),
        1 <= parent.0 < old(doc).nodes.len(),
        i < t.spec_len(),
        t.spec_len() == t.events().len(),
        t.events() == html_events(t.source(), t.context(), t.path()),
        t.events()[i as int] is Start,
        raw_is(raw, started(t, i as int)),
        !(started(t, i as int) is Document),
        !(started(t, i as int) is Fragment),
    ensures
        building(*final(doc), final(elems)@, t),
        r.0 == old(doc).nodes.len(),
        build_step(
            state_of(*old(doc), old(elems)@, seq![parent]),
            (t.path(), i as int, t.events()[i as int]),
            false,
            state_of(*final(doc), final(elems)@, seq![parent, r]),
        ),
{
    let ghost v = started(t, i as int);
    let ghost n0 = doc.nodes@;
    let ghost ev0 = elems@;
    proof {
        assert forall|e: int| 0 <= e < ev0.len() implies 1 <= #[trigger] doc.elements@[e].0 < n0.len() by {
            assert(crate::dom::ids_in(doc.elements@, n0.len() as int));
        }
    }
    let data = match raw {
        RawNode::Element => {
            let (ns, local) = element_name_at(t, i);
            let attrs = read_attributes(t, i);
            let ghost list = attrs@;
            // The `class` attribute is neither the ignore marker nor `rel` or `href`.
            let (attributes, class) = split_class(attrs);
            let inlining_ignored = is_ignored(&attributes);
            let is_html = string_is(&ns, "http://www.w3.org/1999/xhtml");
            let is_style = !inlining_ignored && is_html && string_is(&local, "style");
            let is_link = !inlining_ignored && is_html && string_is(&local, "link")
                && is_stylesheet_link(&attributes);
            let element = ElementInfo {
                name: QualName { ns, local },
                attributes: Attributes { attributes, class },
            };
            proof {
                assert(split_as(list, element.attributes));
                assert(attr_views(list) == kept_attributes(v->attrs));
            }
            let data = NodeData::Element { element, inlining_ignored };
            assert(node_built(data, v));
            let id = doc.push_node(data);
            proof {
                let nodes = doc.nodes@;
                assert forall|k: int| 0 <= k < nodes.len() implies match #[trigger] nodes[k].data {
                    NodeData::Element { element, .. } => attrs_fit(element.attributes.attributes@),
                    _ => true,
                } by {
                    if k < n0.len() {
                        assert(nodes[k] == n0[k]);
                    }
                }
                assert(node_links_ok(doc.nodes@, parent.0 as int));
            }
            doc.append(parent, id);
            doc.push_element_id(id);
            let handle = element_at(t, i);
            elems.push(handle);
            if is_style {
                doc.add_style(id);
            }
            if is_link {
                doc.add_linked_stylesheet(id);
            }
            proof {
                let f = |p: ParsedElement| (p.path(), p.index());
                assert(elems@.map_values(f) =~= ev0.map_values(f).push((t.path(), i as int)));
                assert(doc.nodes@[id.0 as int].data == data);
                assert(appended_node(n0, parent.0 as int, doc.nodes@));
                assert(node_built(doc.nodes@[id.0 as int].data, v));
                assert(seq![parent, id] =~= seq![parent].push(id));
                assert(NodeId((n0.len() as int) as usize) == id);
                assert forall|e: int| 0 <= e < elems@.len() implies node_built(
                    doc.nodes@[doc.elements@[e].0 as int].data,
                    html_events((#[trigger] elems@[e]).source(), elems@[e].context(), elems@[e].path())[elems@[e].index()]->Start_0,
                ) by {
                    if e < ev0.len() {
                        assert(elems@[e] == ev0[e]);
                        assert(doc.elements@[e] == old(doc).elements@[e]);
                        assert(doc.nodes@[doc.elements@[e].0 as int].data == n0[doc.elements@[e].0 as int].data);
                    }
                }
            }
            return id;
        },
        RawNode::Text(text) => NodeData::Text { text },
        RawNode::Comment(text) => NodeData::Comment { text },
        RawNode::Doctype(name) => NodeData::Doctype { name },
        RawNode::ProcessingInstruction(target, data) => NodeData::ProcessingInstruction { target, data },
        RawNode::Document => NodeData::Document,
        RawNode::Fragment => NodeData::Document,
    };
    assert(node_built(data, v));
    let id = doc.push_node(data);
    proof {
        let nodes = doc.nodes@;
        assert forall|k: int| 0 <= k < nodes.len() implies match #[trigger] nodes[k].data {
            NodeData::Element { element, .. } => attrs_fit(element.attributes.attributes@),
            _ => true,
        } by {
            if k < n0.len() {
                assert(nodes[k] == n0[k]);
            }
        }
        assert(node_links_ok(doc.nodes@, parent.0 as int));
    }
    doc.append(parent, id);
    proof {
        assert(doc.nodes@[id.0 as int].data == data);
        assert(appended_node(n0, parent.0 as int, doc.nodes@));
        assert(node_built(doc.nodes@[id.0 as int].data, v));
        assert(seq![parent, id] =~= seq![parent].push(id));
        assert(NodeId((n0.len() as int) as usize) == id);
        assert(elems@ == ev0);
        assert forall|e: int| 0 <= e < elems@.len() implies node_built(
            doc.nodes@[doc.elements@[e].0 as int].data,
            html_events((#[trigger] elems@[e]).source(), elems@[e].context(), elems@[e].path())[elems@[e].index()]->Start_0,
        ) by {
            assert(doc.elements@[e] == old(doc).elements@[e]);
            assert(doc.nodes@[doc.elements@[e].0 as int].data == n0[doc.elements@[e].0 as int].data);
        }
    }
    id
}

/// Builds the nodes of the tree `t` into the document, reading its edges in order, and the
/// contents of its `template` elements right after their start, down to `depth` nested
/// contents.
fn build_tree(
    doc: &mut Document,
    elems: &mut Vec<ParsedElement>,
    open: &mut Vec<NodeId>,
    t: &HtmlTree,
    fragment: bool,
    depth: usize,
) -> (states: Ghost<Seq<BuildState>>)
    requires
        building(*old(doc), old(elems)@, t),
        forall|k: int| 0 <= k < old(open).len() ==> 1 <= (#[trigger] old(open)@[k]).0 < old(doc).nodes.len(),
        t.spec_len() == t.events().len(),
        t.events() == html_events(t.source(), t.context(), t.path()),
    ensures
        building(*final(doc), final(elems)@, t),
        forall|k: int| 0 <= k < final(open).len() ==> 1 <= (#[trigger] final(open)@[k]).0 < final(doc).nodes.len(),
        run_from(
            state_of(*old(doc), old(elems)@, old(open)@),
            edges_to(t.source(), t.context(), t.path(), t.spec_len() as int, depth as nat),
            fragment,
            states@,
        ),
        states@.last() == state_of(*final(doc), final(elems)@, final(open)@),
    decreases depth,
{
    let ghost evs = t.events();
    let ghost src = t.source();
    let ghost ctx = t.context();
    let ghost path = t.path();
    let ghost mut states: Seq<BuildState> = seq![state_of(*doc, elems@, open@)];
    let n = t.len();
    let mut i: usize = 0;
    while i < n
        invariant
            i <= n,
            n == t.spec_len(),
            evs == t.events(),
            evs.len() == n,
            evs == html_events(src, ctx, path),
            src == t.source(),
            ctx == t.context(),
            path == t.path(),
            building(*doc, elems@, t),
            forall|k: int| 0 <= k < open.len() ==> 1 <= (#[trigger] open@[k]).0 < doc.nodes.len(),
            run_from(
                state_of(*old(doc), old(elems)@, old(open)@),
                edges_to(src, ctx, path, i as int, depth as nat),
                fragment,
                states,
            ),
            states.last() == state_of(*doc, elems@, open@),
        decreases n - i,
    {
        let ghost s0 = states.last();
        let ghost edge: Edge = (path, i as int, evs[i as int]);
        let mut template: Option<HtmlTree> = None;
        if is_start(t, i) {
            let raw = node_at(t, i);
            let is_element = match raw {
                RawNode::Element => true,
                _ => false,
            };
            let root = match raw {
                RawNode::Document => true,
                RawNode::Fragment => true,
                RawNode::Element => fragment && open.len() == 1,
                _ => false,
            };
            if root {
                open.push(NodeId::document_id());
                assert(state_of(*doc, elems@, open@) == with_open(s0, s0.open.push(NodeId(1))));
            } else {
                let parent = if open.len() == 0 {
                    NodeId::document_id()
                } else {
                    open[open.len() - 1]
                };
                let ghost d0 = *doc;
                let ghost e0 = elems@;
                let id = add_node(doc, elems, t, i, raw, parent);
                open.push(id);
                proof {
                    let a = state_of(d0, e0, seq![parent]);
                    let b = state_of(*doc, elems@, seq![parent, id]);
                    assert(build_step(a, edge, false, b));
                    assert(parent_of(s0.open) == parent.0);
                    assert(build_step(s0, edge, fragment, state_of(*doc, elems@, open@)));
                }
            }
            if is_element && depth > 0 {
                template = template_tree(t, i);
            }
        } else {
            if open.len() > 0 {
                open.pop();
            }
            assert(state_of(*doc, elems@, open@) == with_open(
                s0,
                if s0.open.len() > 0 { s0.open.drop_last() } else { s0.open },
            ));
        }
        proof {
            let one = seq![s0, state_of(*doc, elems@, open@)];
            assert(run_from(s0, seq![edge], fragment, one));
            lemma_run_concat(
                state_of(*old(doc), old(elems)@, old(open)@),
                edges_to(src, ctx, path, i as int, depth as nat),
                seq![edge],
                fragment,
                states,
                one,
            );
            states = states + one.drop_first();
        }
        let ghost mid = edges_to(src, ctx, path, i as int, depth as nat) + seq![edge];
        match template {
            Some(inner) => {
                let ghost before = states;
                let ghost s1 = states.last();
                let inner_states = build_tree(doc, elems, open, &inner, fragment, depth - 1);
                proof {
                    lemma_run_concat(
                        state_of(*old(doc), old(elems)@, old(open)@),
                        mid,
                        edges_to(src, ctx, inner.path(), inner.spec_len() as int, (depth - 1) as nat),
                        fragment,
                        before,
                        inner_states@,
                    );
                    states = before + inner_states@.drop_first();
                    assert(is_template(evs[i as int]->Start_0));
                    assert(edges_to(src, ctx, path, i + 1, depth as nat) == mid + edges_to(
                        src,
                        ctx,
                        inner.path(),
                        inner.spec_len() as int,
                        (depth - 1) as nat,
                    ));
                }
            },
            None => {
                proof {
                    assert(!(depth > 0 && evs[i as int] is Start && is_template(evs[i as int]->Start_0)));
                    assert(edges_to(src, ctx, path, i + 1, depth as nat) =~= mid);
                }
            },
        }
        i += 1;
    }
    Ghost(states)
}

/// The context a fragment is parsed in: an HTML element with an empty name.
pub open spec fn context_of(fragment: bool) -> Option<(Seq<char>, Seq<char>)> {
    if fragment {
        Some(("http://www.w3.org/1999/xhtml"@, ""@))
    } else {
        None
    }
}

/// Parses an HTML document, or a fragment when `fragment` holds, and builds the document
/// tree from the edges of the parsed tree. For a fragment, the nodes of the fragment become
/// the children of the document node.
pub fn parse_with_options(html: &str, capacity: usize, fragment: bool) -> (r: ParsedDocument)
    ensures
        r.wf(),
        records_ok(r.document),
        r.tree.source() == html@,
        r.tree.context() == context_of(fragment),
        built_from(r, fragment),
        forall|e: int|
            0 <= e < r.parsed_elements.len() ==> node_built(
                r.document.nodes@[r.document.elements@[e].0 as int].data,
                html_events(html@, context_of(fragment), (#[trigger] r.parsed_elements@[e]).path())[r.parsed_elements@[e].index()]->Start_0,
            ),
{
    // A fragment is read as the contents of an HTML element with an empty name.
    let tree = if fragment {
        parse_html(html, Some(("http://www.w3.org/1999/xhtml", "")))
    } else {
        parse_html(html, None)
    };
    let mut doc = Document::with_capacity(capacity);
    let mut elems: Vec<ParsedElement> = Vec::new();
    let mut open: Vec<NodeId> = Vec::new();
    proof {
        assert(doc.nodes@ =~= initial_state().nodes);
        assert(elems@.map_values(|p: ParsedElement| (p.path(), p.index())) =~= Seq::<(Seq<int>, int)>::empty());
        assert(doc.elements@ =~= Seq::<NodeId>::empty());
        assert(doc.styles@ =~= Seq::<NodeId>::empty());
        assert(doc.linked_stylesheets@ =~= Seq::<NodeId>::empty());
        assert(open@ =~= Seq::<NodeId>::empty());
        assert(state_of(doc, elems@, open@) == initial_state());
        let nodes = doc.nodes@;
        assert forall|k: int| 0 <= k < nodes.len() implies match #[trigger] nodes[k].data {
            NodeData::Element { element, .. } => attrs_fit(element.attributes.attributes@),
            _ => true,
        } by {}
    }
    let states = build_tree(&mut doc, &mut elems, &mut open, &tree, fragment, usize::MAX);
    let r = ParsedDocument { document: doc, tree, parsed_elements: elems };
    assert(run_from(
        initial_state(),
        edges_to(r.tree.source(), r.tree.context(), seq![], r.tree.events().len() as int, template_depth()),
        fragment,
        states@,
    ));
    r
}

} // verus!
