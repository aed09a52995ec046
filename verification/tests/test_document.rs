use css_inline::dom::{
    Attributes, Document, ElementInfo, NodeData, NodeId, QualName,
};
use css_inline::serializer::{serialize_document, SerializeOptions};
use css_inline::sources::{document_styles, document_stylesheets};
use css_inline::tree_builder::parse_with_options;

const HTML_NS: &str = "http://www.w3.org/1999/xhtml";

fn new_element() -> NodeData {
    NodeData::Element {
        element: ElementInfo {
            name: QualName {
                ns: String::new(),
                local: "span".to_string(),
            },
            attributes: Attributes {
                attributes: vec![],
                class: None,
            },
        },
        inlining_ignored: false,
    }
}

fn serialize(doc: &Document, keep_style_tags: bool) -> String {
    let styles: Vec<Option<Vec<css_inline::declarations::Entry>>> =
        (0..doc.nodes.len()).map(|_| None).collect();
    let options = SerializeOptions {
        keep_style_tags,
        keep_link_tags: false,
        minify_css: false,
        at_rules: None,
    };
    let mut out = String::new();
    serialize_document(&mut out, doc, &styles, &options).expect("Failed to serialize");
    out
}

fn roundtrip(html: &str) -> String {
    serialize(&parse_with_options(html, 0, false).document, false)
}

#[test]
fn test_collect_styles() {
    let doc = parse_with_options(
        r"
<head>
  <style>h1 { color:blue; }</style>
  <style>h1 { color:red }</style>
  <style data-css-inline='ignore'>h1 { color:yellow; }</style>
</head>",
        0,
        false,
    );
    let styles = document_styles(&doc.document);
    assert_eq!(styles.len(), 2);
    assert_eq!(styles[0].1, "h1 { color:blue; }");
    assert_eq!(styles[1].1, "h1 { color:red }");
}

#[test]
fn test_collect_stylesheets() {
    let doc = parse_with_options(
        r"
<head>
  <link href='styles1.css' rel='stylesheet' type='text/css'>
  <link href='styles2.css' rel='stylesheet' type='text/css'>
  <link href='' rel='stylesheet' type='text/css'>
  <link href='styles3.css' rel='stylesheet' type='text/css' data-css-inline='ignore'>
</head>",
        0,
        false,
    );
    let links = document_stylesheets(&doc.document);
    assert_eq!(links.len(), 2);
    assert_eq!(links[0], "styles1.css");
    assert_eq!(links[1], "styles2.css");
}

#[test]
fn test_insert_before() {
    let mut doc = Document::with_capacity(0);

    let node1_id = doc.push_node(new_element());
    let node2_id = doc.push_node(new_element());
    let new_node_id = doc.push_node(new_element());

    let document_id = NodeId::document_id();
    doc.append(document_id, node1_id);
    doc.append(document_id, node2_id);

    doc.insert_before(node2_id, new_node_id);

    assert_eq!(doc.node(node2_id).previous_sibling, Some(new_node_id));
    assert_eq!(doc.node(new_node_id).next_sibling, Some(node2_id));
}

#[test]
fn test_append() {
    let mut doc = Document::with_capacity(0);

    let node1_id = doc.push_node(new_element());
    let node2_id = doc.push_node(new_element());

    let document_id = NodeId::document_id();
    doc.append(document_id, node1_id);
    doc.append(document_id, node2_id);

    assert_eq!(doc.node(document_id).last_child, Some(node2_id));
    assert_eq!(doc.node(node1_id).next_sibling, Some(node2_id));
    assert_eq!(doc.node(node2_id).previous_sibling, Some(node1_id));
}

#[test]
fn roundtrip_title() {
    let input = "<!DOCTYPE html><html><head><title>Title of the document</title></head><body></body></html>";
    assert_eq!(roundtrip(input), input);
}

#[test]
fn roundtrip_void_element() {
    let input = "<!DOCTYPE html><html><head><title>Title of the document</title></head><body><hr></body></html>";
    assert_eq!(roundtrip(input), input);
}

#[test]
fn test_ignore_children() {
    assert_eq!(
        roundtrip("<!DOCTYPE html><html><head><title>Title of the document</title></head><body><hr><hr></hr></hr></body></html>"),
        "<!DOCTYPE html><html><head><title>Title of the document</title></head><body><hr><hr></body></html>"
    );
}

#[test]
fn test_pseudo_class() {
    let output = roundtrip("<!DOCTYPE html><html><head><title>Title of the document</title><style>h1:hover { color:blue; }</style></head><body><h1>Hello world!</h1></body></html>");
    assert_eq!(
        output,
        "<!DOCTYPE html><html><head><title>Title of the document</title></head><body><h1>Hello world!</h1></body></html>"
    );
}

#[test]
fn test_comment() {
    let output = roundtrip("<html><head><title>Title of the document</title></head><body><!--TTT--></body></html>");
    assert_eq!(
        output,
        "<html><head><title>Title of the document</title></head><body><!--TTT--></body></html>"
    );
}

#[test]
fn test_edit_document() {
    let mut doc = parse_with_options("<html><body><a></a><b></b></body></html>", 0, false).document;
    let a_id = NodeId::new(5);
    let a = doc.node(a_id).as_element().expect("Element does not exist");
    assert_eq!((a.name.ns.as_str(), a.name.local.as_str()), (HTML_NS, "a"));
    let b_id = NodeId::new(6);
    let b = doc.node(b_id).as_element().expect("Element does not exist");
    assert_eq!((b.name.ns.as_str(), b.name.local.as_str()), (HTML_NS, "b"));
    // `a` is the previous sibling of `b`
    // `b` is the next sibling of `a`
    assert_eq!(doc.node(b_id).previous_sibling, Some(a_id));
    assert_eq!(doc.node(a_id).next_sibling, Some(b_id));
    // Detach `b`, so it has no previous sibling
    // And `a` has not next sibling
    doc.detach(b_id);
    assert_eq!(doc.node(b_id).previous_sibling, None);
    assert_eq!(doc.node(a_id).next_sibling, None);
    let head_id = NodeId::new(3);
    let body_id = NodeId::new(4);
    // Detach `head`, so previous sibling of `body` is empty
    doc.detach(head_id);
    assert_eq!(doc.node(body_id).next_sibling, None);
}

#[test]
fn test_serialize() {
    let doc = parse_with_options(
        "<html><head><style>h1 { color:blue; }</style><style>h1 { color:red }</style></head>",
        0,
        false,
    );
    assert_eq!(
        serialize(&doc.document, true),
        "<html><head><style>h1 { color:blue; }</style><style>h1 { color:red }</style></head><body></body></html>"
    );
}

#[test]
fn test_skip_style_tags() {
    let doc = parse_with_options(
        "<html><head><style>h1 { color:blue; }</style><style>h1 { color:red }</style></head>",
        0,
        false,
    );
    assert_eq!(serialize(&doc.document, false), "<html><head></head><body></body></html>");
}

#[test]
fn fragment_nodes_become_children_of_the_document() {
    let doc = parse_with_options("<p>one</p><p>two</p>", 0, true).document;
    assert_eq!(serialize(&doc, false), "<p>one</p><p>two</p>");
}

#[test]
fn reparent_children_moves_all_children_in_order() {
    let mut doc = Document::with_capacity(0);
    let document_id = NodeId::document_id();
    let a = doc.push_node(new_element());
    doc.append(document_id, a);
    let c1 = doc.push_node(new_element());
    doc.append(a, c1);
    let c2 = doc.push_node(new_element());
    doc.append(a, c2);

    doc.reparent_children(a, document_id);

    assert_eq!(doc.node(a).first_child, None);
    assert_eq!(doc.node(a).last_child, None);
    assert_eq!(doc.node(document_id).first_child, Some(a));
    assert_eq!(doc.node(document_id).last_child, Some(c2));
    assert_eq!(doc.node(a).next_sibling, Some(c1));
    assert_eq!(doc.node(c1).next_sibling, Some(c2));
    assert_eq!(doc.node(c1).parent, Some(document_id));
    assert_eq!(doc.node(c2).parent, Some(document_id));
}

fn attribute(local: &str, value: &str) -> css_inline::dom::Attribute {
    css_inline::dom::Attribute {
        name: QualName {
            ns: String::new(),
            local: local.to_string(),
        },
        value: value.to_string(),
    }
}

#[test]
fn split_class_takes_out_the_first_class() {
    let attrs = vec![
        attribute("id", "a"),
        attribute("class", "x"),
        attribute("class", "y"),
        attribute("title", "t"),
    ];
    let (rest, class) = css_inline::tree_builder::split_class(attrs);
    assert_eq!(class.map(|c| c.value), Some("x".to_string()));
    let names: Vec<&str> = rest.iter().map(|a| a.name.local.as_str()).collect();
    assert_eq!(names, vec!["id", "title", "class"]);
    let (same, none) = css_inline::tree_builder::split_class(vec![attribute("id", "a")]);
    assert!(none.is_none());
    assert_eq!(same.len(), 1);
}

#[test]
fn each_element_is_recorded_with_its_parsed_element() {
    let parsed = parse_with_options("<div class=\"a\"><p>one</p><span>two</span></div>", 0, false);
    let elements = &parsed.document.elements;
    // html, head, body, div, p, span
    assert_eq!(elements.len(), 6);
    assert_eq!(parsed.parsed_elements.len(), elements.len());
    let names: Vec<String> = elements
        .iter()
        .map(|id| match &parsed.document.nodes[id.get()].data {
            NodeData::Element { element, .. } => element.name.local.clone(),
            _ => String::new(),
        })
        .collect();
    assert_eq!(names, vec!["html", "head", "body", "div", "p", "span"]);
    match &parsed.document.nodes[elements[3].get()].data {
        NodeData::Element { element, .. } => {
            assert_eq!(element.attributes.class.as_ref().map(|c| c.value.as_str()), Some("a"));
            assert!(element.attributes.attributes.is_empty());
        }
        _ => panic!("not an element"),
    }
}

#[test]
fn fragment_elements_are_recorded_without_a_wrapper() {
    let parsed = parse_with_options("<p>one</p><b>two</b>", 0, true);
    assert_eq!(parsed.document.elements.len(), 2);
    assert_eq!(parsed.parsed_elements.len(), 2);
}

#[test]
fn template_contents_become_children_of_the_template() {
    assert_eq!(
        roundtrip("<body><template><p>one</p><b>two</b></template></body>"),
        "<html><head></head><body><template><p>one</p><b>two</b></template></body></html>"
    );
    let parsed = parse_with_options("<template><template><i>x</i></template></template>", 0, true);
    assert_eq!(serialize(&parsed.document, false), "<template><template><i>x</i></template></template>");
    assert_eq!(parsed.document.elements.len(), 3);
}
