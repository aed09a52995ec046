//! The HTML parser and the selector engine: `kuchikiki` parses documents with `html5ever`
//! and matches selectors with `selectors`. The items here are the calls the library makes
//! into it. A parsed tree (the whole tree, or the contents of a `template` element) is held
//! as the start and end edges of its nodes in tree order; what each edge holds, and which
//! elements a selector list matches, are named over the HTML text that was parsed and where
//! the tree lies in it, since parsing depends on that text alone.
use vstd::prelude::*;
use kuchikiki::traits::TendrilSink;

verus! {

#[verifier::external_type_specification]
#[verifier::external_body]
pub struct ExNodeRef(kuchikiki::NodeRef);

#[verifier::external_type_specification]
#[verifier::external_body]
#[verifier::reject_recursive_types(T)]
pub struct ExNodeEdge<T>(kuchikiki::iter::NodeEdge<T>);

#[verifier::external_type_specification]
#[verifier::external_body]
pub struct ExSelectors(kuchikiki::Selectors);

/// A parsed node as plain values: its kind, with its texts, and for an element its namespace
/// URL, local name and attributes (namespace URL, local name, value) in document order.
pub enum NodeView {
    Document,
    Fragment,
    Doctype(Seq<char>),
    Text(Seq<char>),
    Comment(Seq<char>),
    ProcessingInstruction(Seq<char>, Seq<char>),
    Element { ns: Seq<char>, local: Seq<char>, attrs: Seq<(Seq<char>, Seq<char>, Seq<char>)> },
}

/// The start of a node, or the end of the node started last and not yet ended.
pub enum HtmlEvent {
    Start(NodeView),
    End,
}

/// The edges, in tree order, of a tree of what `html` parses into: a document when `context`
/// is `None`, otherwise a fragment read as the contents of an element with that namespace URL
/// and local name. With an empty `path`, the whole tree from its root
/// (`NodeRef::traverse_inclusive`); the parser keeps the contents of a `template` element in
/// a fragment of their own, and `path` with `j` added names the nodes of the contents
/// (`NodeRef::traverse` of `template_contents`) of the `template` element that starts at edge
/// `j` of the tree at `path`. It depends on its arguments alone.
pub uninterp spec fn html_events(
    html: Seq<char>,
    context: Option<(Seq<char>, Seq<char>)>,
    path: Seq<int>,
) -> Seq<HtmlEvent>;

/// Whether the selector list `selectors` matches the element that starts at edge `node` of
/// the tree at `path` of what `html` parses into (`Selectors::matches`); it depends on its
/// arguments alone.
pub uninterp spec fn selector_matches(
    html: Seq<char>,
    context: Option<(Seq<char>, Seq<char>)>,
    path: Seq<int>,
    selectors: Seq<char>,
    node: int,
) -> bool;

/// Whether `kuchikiki::Selectors::compile` accepts a selector list; it depends on the text
/// alone.
pub uninterp spec fn selectors_compile(text: Seq<char>) -> bool;

/// The specificity of the first selector of a selector list that `Selectors::compile`
/// accepts, as the number `Specificity` is ordered by; it depends on the text alone.
pub uninterp spec fn selector_specificity(text: Seq<char>) -> nat;

/// A parsed tree, with the HTML text and context it was parsed from and where it lies in
/// what was parsed; only `parse_html` and `template_tree` make one.
pub struct HtmlTree {
    edges: Vec<kuchikiki::iter::NodeEdge<kuchikiki::NodeRef>>,
    html: Ghost<Seq<char>>,
    context: Ghost<Option<(Seq<char>, Seq<char>)>>,
    path: Ghost<Seq<int>>,
}

impl HtmlTree {
    /// The HTML text the tree was parsed from.
    pub closed spec fn source(&self) -> Seq<char> {
        self.html@
    }

    /// The context of the fragment, or `None` for a document.
    pub closed spec fn context(&self) -> Option<(Seq<char>, Seq<char>)> {
        self.context@
    }

    /// Where the tree lies in what was parsed: empty for the whole tree.
    pub closed spec fn path(&self) -> Seq<int> {
        self.path@
    }

    /// The edges of the tree.
    pub closed spec fn events(&self) -> Seq<HtmlEvent> {
        html_events(self.html@, self.context@, self.path@)
    }

    pub closed spec fn spec_len(&self) -> nat {
        self.edges@.len()
    }

    /// The number of edges.
    pub fn len(&self) -> (r: usize)
        ensures
            r == self.spec_len(),
    {
        self.edges.len()
    }
}

/// A compiled selector list, with the text it was compiled from; only `compile_selectors`
/// makes one.
pub struct CompiledSelectors {
    selectors: kuchikiki::Selectors,
    text: Ghost<Seq<char>>,
}

impl CompiledSelectors {
    /// The text the selector list was compiled from.
    pub closed spec fn text(&self) -> Seq<char> {
        self.text@
    }
}

/// What a parsed node is, with its text where it has one.
pub enum RawNode {
    Element,
    Text(String),
    Comment(String),
    Doctype(String),
    ProcessingInstruction(String, String),
    Document,
    Fragment,
}

/// The raw node is the node `v`, with the same texts.
pub open spec fn raw_is(r: RawNode, v: NodeView) -> bool {
    match (r, v) {
        (RawNode::Element, NodeView::Element { .. }) => true,
        (RawNode::Text(a), NodeView::Text(b)) => a@ == b,
        (RawNode::Comment(a), NodeView::Comment(b)) => a@ == b,
        (RawNode::Doctype(a), NodeView::Doctype(b)) => a@ == b,
        (RawNode::ProcessingInstruction(a, b), NodeView::ProcessingInstruction(c, d)) => a@ == c && b@ == d,
        (RawNode::Document, NodeView::Document) => true,
        (RawNode::Fragment, NodeView::Fragment) => true,
        _ => false,
    }
}

/// Parses `html` (`kuchikiki::parse_html().one(html)`, or `kuchikiki::parse_fragment(..)`
/// with the context element when there is one) and takes the edges of the tree in tree order
/// (`NodeRef::traverse_inclusive`).
#[verifier::external_body]
pub(crate) fn parse_html(html: &str, context: Option<(&str, &str)>) -> (r: HtmlTree)
    ensures
        r.source() == html@,
        r.context() == (match context {
            Some((ns, local)) => Some((ns@, local@)),
            None => None,
        }),
        r.path() == Seq::<int>::empty(),
        r.events() == html_events(html@, r.context(), r.path()),
        r.spec_len() == r.events().len(),
{
    let root = match context {
        Some((ns, local)) => kuchikiki::parse_fragment(html5ever::QualName::new(None, ns.into(), local.into()), Vec::new()).one(html),
        None => kuchikiki::parse_html().one(html),
    };
    let ghost context_view = match context {
        Some((ns, local)) => Some((ns@, local@)),
        None => None,
    };
    HtmlTree { edges: root.traverse_inclusive().collect(), html: Ghost(html@), context: Ghost(context_view), path: Ghost(Seq::empty()) }
}

/// The node that starts at edge `i` of the tree.
pub open spec fn started(t: &HtmlTree, i: int) -> NodeView {
    t.events()[i]->Start_0
}

/// Edge `i` of the tree is the start of an element.
pub open spec fn starts_element(t: &HtmlTree, i: int) -> bool {
    0 <= i < t.spec_len() && t.events()[i] is Start && started(t, i) is Element
}

/// Whether edge `i` of the tree is the start of a node.
#[verifier::external_body]
pub(crate) fn is_start(t: &HtmlTree, i: usize) -> (r: bool)
    requires
        i < t.spec_len(),
    ensures
        r == t.events()[i as int] is Start,
{
    matches!(t.edges[i], kuchikiki::iter::NodeEdge::Start(_))
}

/// `Node::data` of the node that starts at edge `i`: its kind, with a copy of its text,
/// comment, doctype name or processing instruction.
#[verifier::external_body]
pub(crate) fn node_at(t: &HtmlTree, i: usize) -> (r: RawNode)
    requires
        i < t.spec_len(),
        t.events()[i as int] is Start,
    ensures
        raw_is(r, started(t, i as int)),
{
    let kuchikiki::iter::NodeEdge::Start(node) = &t.edges[i] else { return RawNode::Document };
    match node.data() {
        kuchikiki::NodeData::Element(_) => RawNode::Element,
        kuchikiki::NodeData::Text(text) => RawNode::Text(text.borrow().clone()),
        kuchikiki::NodeData::Comment(text) => RawNode::Comment(text.borrow().clone()),
        kuchikiki::NodeData::ProcessingInstruction(pi) => RawNode::ProcessingInstruction(pi.borrow().0.clone(), pi.borrow().1.clone()),
        kuchikiki::NodeData::Doctype(doctype) => RawNode::Doctype(doctype.name.clone()),
        kuchikiki::NodeData::Document(_) => RawNode::Document,
        kuchikiki::NodeData::DocumentFragment => RawNode::Fragment,
    }
}

/// The namespace URL and the local name of the element that starts at edge `i`.
#[verifier::external_body]
pub(crate) fn element_name_at(t: &HtmlTree, i: usize) -> (r: (String, String))
    requires
        starts_element(t, i as int),
    ensures
        r.0@ == started(t, i as int)->ns,
        r.1@ == started(t, i as int)->local,
{
    let kuchikiki::iter::NodeEdge::Start(node) = &t.edges[i] else { return (String::new(), String::new()) };
    let Some(e) = node.as_element() else { return (String::new(), String::new()) };
    (e.name.ns.to_string(), e.name.local.to_string())
}

/// The number of attributes of the element that starts at edge `i`.
#[verifier::external_body]
pub(crate) fn attribute_count_at(t: &HtmlTree, i: usize) -> (r: usize)
    requires
        starts_element(t, i as int),
    ensures
        r == started(t, i as int)->attrs.len(),
{
    let kuchikiki::iter::NodeEdge::Start(node) = &t.edges[i] else { return 0 };
    let Some(e) = node.as_element() else { return 0 };
    e.attributes.borrow().map.len()
}

/// The namespace URL, local name and value of attribute `k` of the element that starts at
/// edge `i`, in document order.
#[verifier::external_body]
pub(crate) fn attribute_at(t: &HtmlTree, i: usize, k: usize) -> (r: (String, String, String))
    requires
        starts_element(t, i as int),
        k < started(t, i as int)->attrs.len(),
    ensures
        r.0@ == started(t, i as int)->attrs[k as int].0,
        r.1@ == started(t, i as int)->attrs[k as int].1,
        r.2@ == started(t, i as int)->attrs[k as int].2,
{
    let kuchikiki::iter::NodeEdge::Start(node) = &t.edges[i] else { return (String::new(), String::new(), String::new()) };
    let Some(e) = node.as_element() else { return (String::new(), String::new(), String::new()) };
    let attributes = e.attributes.borrow();
    let Some((n, a)) = attributes.map.get_index(k) else { return (String::new(), String::new(), String::new()) };
    (n.ns.to_string(), n.local.to_string(), a.value.clone())
}

/// `Selectors::compile`: the selector list, when the text is one that is supported.
#[verifier::external_body]
pub(crate) fn compile_selectors(text: &str) -> (r: Option<CompiledSelectors>)
    ensures
        r is Some == selectors_compile(text@),
        r matches Some(c) ==> c.text() == text@,
{
    kuchikiki::Selectors::compile(text).ok().map(|selectors| CompiledSelectors { selectors, text: Ghost(text@) })
}

/// An element of a parsed tree, with where it starts: the tree's text, context and path, and
/// the edge; only `element_at` makes one.
pub struct ParsedElement {
    node: kuchikiki::NodeRef,
    html: Ghost<Seq<char>>,
    context: Ghost<Option<(Seq<char>, Seq<char>)>>,
    path: Ghost<Seq<int>>,
    index: Ghost<int>,
}

impl ParsedElement {
    pub closed spec fn source(&self) -> Seq<char> {
        self.html@
    }

    pub closed spec fn context(&self) -> Option<(Seq<char>, Seq<char>)> {
        self.context@
    }

    pub closed spec fn path(&self) -> Seq<int> {
        self.path@
    }

    pub closed spec fn index(&self) -> int {
        self.index@
    }
}

/// The element that starts at edge `i`, kept for selector matching.
#[verifier::external_body]
pub(crate) fn element_at(t: &HtmlTree, i: usize) -> (r: ParsedElement)
    requires
        starts_element(t, i as int),
    ensures
        r.source() == t.source(),
        r.context() == t.context(),
        r.path() == t.path(),
        r.index() == i,
{
    let (kuchikiki::iter::NodeEdge::Start(node) | kuchikiki::iter::NodeEdge::End(node)) = &t.edges[i];
    ParsedElement { node: node.clone(), html: Ghost(t.html@), context: Ghost(t.context@), path: Ghost(t.path@), index: Ghost(i as int) }
}

/// The tree of the contents of the element that starts at edge `i`
/// (`NodeRef::traverse` of its `template_contents`): the parser makes contents for an HTML
/// `template` element and for no other element.
#[verifier::external_body]
pub(crate) fn template_tree(t: &HtmlTree, i: usize) -> (r: Option<HtmlTree>)
    requires
        starts_element(t, i as int),
    ensures
        r is Some == (started(t, i as int)->ns == "http://www.w3.org/1999/xhtml"@ && started(t, i as int)->local == "template"@),
        r matches Some(c) ==> c.source() == t.source() && c.context() == t.context() && c.path() == t.path().push(i as int)
            && c.spec_len() == c.events().len() && c.events() == html_events(c.source(), c.context(), c.path()),
{
    let kuchikiki::iter::NodeEdge::Start(node) = &t.edges[i] else { return None };
    let contents = node.as_element()?.template_contents.clone()?;
    let path = Ghost(t.path@.push(i as int));
    Some(HtmlTree { edges: contents.traverse().collect(), html: Ghost(t.html@), context: Ghost(t.context@), path })
}

/// `Selectors::matches` on the element.
#[verifier::external_body]
pub(crate) fn matches_at(e: &ParsedElement, c: &CompiledSelectors) -> (r: bool)
    ensures
        r == selector_matches(e.source(), e.context(), e.path(), c.text(), e.index()),
{
    let Some(element) = e.node.clone().into_element_ref() else { return false };
    c.selectors.matches(&element)
}

/// Whether the first selector of the list `a` is less specific than the first selector of the
/// list `b`: each text is compiled (`Selectors::compile`), the first selector's
/// `Selector::specificity` is taken, and the two are compared by the order `Specificity`
/// derives.
#[verifier::external_body]
pub(crate) fn specificity_below(a: &str, b: &str) -> (r: bool)
    requires
        selectors_compile(a@),
        selectors_compile(b@),
    ensures
        r == (selector_specificity(a@) < selector_specificity(b@)),
{
    let first = |t: &str| kuchikiki::Selectors::compile(t).ok().and_then(|l| l.0.first().map(kuchikiki::Selector::specificity));
    first(a) < first(b)
}

} // verus!
