//! Writing a document back to HTML with the inlined styles in `style` attributes.
//!
//! Text is escaped except inside raw-text elements (`style`, `script`, ...), attribute values
//! are escaped, void elements get no end tag, `style` elements and `link` elements that refer
//! to stylesheets are dropped unless they are to be kept. An element that received styles
//! gets them merged into its `style` attribute, or a new `style` attribute.
use vstd::prelude::*;
use crate::css::{SpecSyntaxError, SyntaxError};
use crate::declarations::{
    entries_view, fresh_style, merge_style_attribute, merge_styles, normalized, push_fresh_style,
    Entry,
};
use crate::dom::{Attribute, Class, Document, ElementInfo, NodeData, NodeId, node_links_ok};
use crate::text::{push_str, str_chars, string_is, string_push};

verus! {

/// How a document is written.
pub struct SerializeOptions {
    pub keep_style_tags: bool,
    pub keep_link_tags: bool,
    pub minify_css: bool,
    /// At-rules to write in a `style` element at the start of `head`.
    pub at_rules: Option<String>,
}

pub open spec fn opt_entries(o: Option<Vec<Entry>>) -> Option<Seq<(Seq<char>, Seq<char>)>> {
    match o {
        Some(v) => Some(entries_view(v@)),
        None => None,
    }
}

/// The styles of each node, by node index.
pub open spec fn styles_view(st: Seq<Option<Vec<Entry>>>) -> Seq<Option<Seq<(Seq<char>, Seq<char>)>>> {
    st.map_values(|o: Option<Vec<Entry>>| opt_entries(o))
}

pub open spec fn html_ns() -> Seq<char> {
    "http://www.w3.org/1999/xhtml"@
}

pub open spec fn xml_ns() -> Seq<char> {
    "http://www.w3.org/XML/1998/namespace"@
}

pub open spec fn xmlns_ns() -> Seq<char> {
    "http://www.w3.org/2000/xmlns/"@
}

pub open spec fn xlink_ns() -> Seq<char> {
    "http://www.w3.org/1999/xlink"@
}

/// Elements that have no end tag.
#[verifier::opaque]
pub open spec fn is_void_name(l: Seq<char>) -> bool {
    ||| l == "area"@
    ||| l == "base"@
    ||| l == "basefont"@
    ||| l == "bgsound"@
    ||| l == "br"@
    ||| l == "col"@
    ||| l == "embed"@
    ||| l == "frame"@
    ||| l == "hr"@
    ||| l == "img"@
    ||| l == "input"@
    ||| l == "keygen"@
    ||| l == "link"@
    ||| l == "meta"@
    ||| l == "param"@
    ||| l == "source"@
    ||| l == "track"@
    ||| l == "wbr"@
}

/// Elements whose text is written unescaped.
#[verifier::opaque]
pub open spec fn is_raw_text_name(l: Seq<char>) -> bool {
    ||| l == "style"@
    ||| l == "script"@
    ||| l == "xmp"@
    ||| l == "iframe"@
    ||| l == "noembed"@
    ||| l == "noframes"@
    ||| l == "plaintext"@
    ||| l == "noscript"@
}

pub open spec fn escape_text_char(c: char) -> Seq<char> {
    if c == '&' {
        "&amp;"@
    } else if c == '\u{a0}' {
        "&nbsp;"@
    } else if c == '<' {
        "&lt;"@
    } else if c == '>' {
        "&gt;"@
    } else {
        seq![c]
    }
}

pub open spec fn escape_attr_char(c: char) -> Seq<char> {
    if c == '&' {
        "&amp;"@
    } else if c == '\u{a0}' {
        "&nbsp;"@
    } else if c == '"' {
        "&quot;"@
    } else {
        seq![c]
    }
}

/// Text with `&`, no-break spaces, `<` and `>` escaped.
pub open spec fn escape_text(s: Seq<char>) -> Seq<char>
    decreases s.len(),
{
    if s.len() == 0 {
        seq![]
    } else {
        escape_text(s.drop_last()) + escape_text_char(s.last())
    }
}

/// An attribute value with `&`, no-break spaces and `"` escaped.
pub open spec fn escape_attr(s: Seq<char>) -> Seq<char>
    decreases s.len(),
{
    if s.len() == 0 {
        seq![]
    } else {
        escape_attr(s.drop_last()) + escape_attr_char(s.last())
    }
}

/// The prefix written before an attribute's local name for its namespace.
pub open spec fn attr_prefix(ns: Seq<char>, local: Seq<char>) -> Seq<char> {
    if ns.len() == 0 {
        seq![]
    } else if ns == xml_ns() {
        "xml:"@
    } else if ns == xmlns_ns() {
        if local == "xmlns"@ {
            seq![]
        } else {
            "xmlns:"@
        }
    } else if ns == xlink_ns() {
        "xlink:"@
    } else {
        "unknown_namespace:"@
    }
}

/// The value of the first attribute without namespace named `local`.
pub open spec fn attr_value(attrs: Seq<Attribute>, local: Seq<char>) -> Option<Seq<char>>
    decreases attrs.len(),
{
    if attrs.len() == 0 {
        None
    } else if attrs[0].name.ns@.len() == 0 && attrs[0].name.local@ == local {
        Some(attrs[0].value@)
    } else {
        attr_value(attrs.drop_first(), local)
    }
}

/// Whether an element is left out of the output.
#[verifier::opaque]
pub open spec fn skip_element(e: ElementInfo, keep_style: bool, keep_link: bool) -> bool {
    if e.name.local@ == "style"@ {
        !keep_style && attr_value(e.attributes.attributes@, "data-css-inline"@) != Some("keep"@)
    } else if e.name.local@ == "link"@ && attr_value(e.attributes.attributes@, "rel"@) == Some(
        "stylesheet"@,
    ) {
        !keep_link
    } else {
        false
    }
}

pub open spec fn class_text(c: Option<Class>) -> Seq<char> {
    match c {
        Some(c) => " class=\""@ + c.value@ + "\""@,
        None => seq![],
    }
}

/// The attributes of an element, and the styles that were not merged into a `style`
/// attribute.
pub open spec fn attrs_text(
    attrs: Seq<Attribute>,
    styles: Option<Seq<(Seq<char>, Seq<char>)>>,
    minify: bool,
) -> (Result<Seq<char>, SpecSyntaxError>, Option<Seq<(Seq<char>, Seq<char>)>>)
    decreases attrs.len(),
{
    if attrs.len() == 0 {
        (Ok(seq![]), styles)
    } else {
        let prev = attrs_text(attrs.drop_last(), styles, minify);
        let a = attrs.last();
        let head = " "@ + attr_prefix(a.name.ns@, a.name.local@) + a.name.local@ + "=\""@;
        match prev.0 {
            Err(e) => (Err(e), prev.1),
            Ok(p) => if a.name.local@ == "style"@ && prev.1 is Some {
                match merge_style_attribute(a.value@, prev.1->Some_0, minify) {
                    Ok(m) => (Ok(p + head + m + "\""@), None),
                    Err(e) => (Err(e), None),
                }
            } else {
                (Ok(p + head + escape_attr(a.value@) + "\""@), prev.1)
            },
        }
    }
}

/// Once the attributes of a prefix give an error, all the attributes give that error.
pub proof fn lemma_attrs_err_sticky(
    attrs: Seq<Attribute>,
    k: int,
    so: Option<Seq<(Seq<char>, Seq<char>)>>,
    minify: bool,
)
    requires
        0 <= k <= attrs.len(),
        attrs_text(attrs.subrange(0, k), so, minify).0 is Err,
    ensures
        attrs_text(attrs, so, minify).0 == attrs_text(attrs.subrange(0, k), so, minify).0,
    decreases attrs.len() - k,
{
    if k < attrs.len() {
        let next = attrs.subrange(0, k + 1);
        assert(next.drop_last() =~= attrs.subrange(0, k));
        lemma_attrs_err_sticky(attrs, k + 1, so, minify);
    } else {
        assert(attrs.subrange(0, k) =~= attrs);
    }
}

pub open spec fn style_text(p: Option<Seq<(Seq<char>, Seq<char>)>>, minify: bool) -> Seq<char> {
    match p {
        Some(es) => " style=\""@ + fresh_style(normalized(es), minify) + "\""@,
        None => seq![],
    }
}

/// Every attribute value is shorter than the largest `usize`.
pub open spec fn attrs_fit(attrs: Seq<Attribute>) -> bool {
    forall|k: int| 0 <= k < attrs.len() ==> #[trigger] attrs[k].value@.len() < usize::MAX
}

/// The start tag of an element.
#[verifier::opaque]
pub open spec fn start_tag(
    e: ElementInfo,
    styles: Option<Seq<(Seq<char>, Seq<char>)>>,
    minify: bool,
) -> Result<Seq<char>, SpecSyntaxError> {
    let at = attrs_text(e.attributes.attributes@, styles, minify);
    match at.0 {
        Err(x) => Err(x),
        Ok(a) => Ok("<"@ + e.name.local@ + class_text(e.attributes.class) + a + style_text(
            at.1,
            minify,
        ) + ">"@),
    }
}

/// What follows the start tag of `head`: the kept at-rules.
pub open spec fn head_extra(e: ElementInfo, at_rules: Option<String>) -> Seq<char> {
    if e.name.ns@ == html_ns() && e.name.local@ == "head"@ && at_rules is Some
        && at_rules->Some_0@.len() > 0 {
        "<style>"@ + at_rules->Some_0@ + "</style>"@
    } else {
        seq![]
    }
}

/// The output for node `id`. `ignore` holds inside void elements, where element tags are
/// not written; `raw` holds inside raw-text elements.
pub open spec fn ser_node(
    nodes: Seq<crate::dom::Node>,
    id: int,
    st: Seq<Option<Seq<(Seq<char>, Seq<char>)>>>,
    o: SerializeOptions,
    ignore: bool,
    raw: bool,
) -> Result<Seq<char>, SpecSyntaxError>
    decreases nodes.len() - id, 3int,
{
    if !(0 <= id < nodes.len()) {
        Ok(seq![])
    } else {
        match nodes[id].data {
            NodeData::Document => ser_kids(nodes, id, st, o, ignore, raw),
            NodeData::Doctype { name } => Ok("<!DOCTYPE "@ + name@ + ">"@),
            NodeData::Text { text } => Ok(
                if raw {
                    text@
                } else {
                    escape_text(text@)
                },
            ),
            NodeData::Comment { text } => Ok("<!--"@ + text@ + "-->"@),
            NodeData::ProcessingInstruction { target, data } => Ok(
                "<?"@ + target@ + " "@ + data@ + ">"@,
            ),
            NodeData::Element { element, inlining_ignored } => ser_element(
                nodes,
                id,
                element,
                inlining_ignored,
                st,
                o,
                ignore,
                raw,
            ),
        }
    }
}

/// The output for the element node `id`.
pub open spec fn ser_element(
    nodes: Seq<crate::dom::Node>,
    id: int,
    element: ElementInfo,
    inlining_ignored: bool,
    st: Seq<Option<Seq<(Seq<char>, Seq<char>)>>>,
    o: SerializeOptions,
    ignore: bool,
    raw: bool,
) -> Result<Seq<char>, SpecSyntaxError>
    decreases nodes.len() - id, 2int,
{
    if skip_element(element, o.keep_style_tags, o.keep_link_tags) {
        Ok(seq![])
    } else {
        let is_html = element.name.ns@ == html_ns();
        let my_raw = is_html && is_raw_text_name(element.name.local@);
        let my_void = is_html && is_void_name(element.name.local@);
        if ignore {
            ser_kids(nodes, id, st, o, true, my_raw)
        } else {
            let styles = if inlining_ignored || id < 0 || id >= st.len() {
                None
            } else {
                st[id]
            };
            tagged(nodes, id, element, styles, st, o, my_void, my_raw)
        }
    }
}

/// The output for the children of node `id`.
pub open spec fn ser_kids(
    nodes: Seq<crate::dom::Node>,
    id: int,
    st: Seq<Option<Seq<(Seq<char>, Seq<char>)>>>,
    o: SerializeOptions,
    ignore: bool,
    raw: bool,
) -> Result<Seq<char>, SpecSyntaxError>
    decreases nodes.len() - id, 0int,
{
    if 0 <= id < nodes.len() {
        match nodes[id].first_child {
            Some(f) => if id < f.0 < nodes.len() {
                ser_chain(nodes, f.0 as int, st, o, ignore, raw)
            } else {
                Ok(seq![])
            },
            None => Ok(seq![]),
        }
    } else {
        Ok(seq![])
    }
}

/// The output for node `c` and its following siblings.
pub open spec fn ser_chain(
    nodes: Seq<crate::dom::Node>,
    c: int,
    st: Seq<Option<Seq<(Seq<char>, Seq<char>)>>>,
    o: SerializeOptions,
    ignore: bool,
    raw: bool,
) -> Result<Seq<char>, SpecSyntaxError>
    decreases nodes.len() - c, 4int,
{
    if !(0 <= c < nodes.len()) {
        Ok(seq![])
    } else {
        match ser_node(nodes, c, st, o, ignore, raw) {
            Err(e) => Err(e),
            Ok(t) => match nodes[c].next_sibling {
                Some(n) => if c < n.0 < nodes.len() {
                    match ser_chain(nodes, n.0 as int, st, o, ignore, raw) {
                        Err(e) => Err(e),
                        Ok(r) => Ok(t + r),
                    }
                } else {
                    Ok(t)
                },
                None => Ok(t),
            },
        }
    }
}

/// The output for a whole document.
pub open spec fn serialized(
    doc: Document,
    st: Seq<Option<Seq<(Seq<char>, Seq<char>)>>>,
    o: SerializeOptions,
) -> Result<Seq<char>, SpecSyntaxError> {
    ser_node(doc.nodes@, 1, st, o, false, false)
}

/// Appends `escape_text(s)`.
pub fn push_escaped_text(out: &mut String, s: &str)
    ensures
        final(out)@ == old(out)@ + escape_text(s@),
{
    let v = str_chars(s);
    let mut i: usize = 0;
    while i < v.len()
        invariant
            i <= v.len(),
            v@ == s@,
            out@ == old(out)@ + escape_text(v@.subrange(0, i as int)),
        decreases v.len() - i,
    {
        let c = v[i];
        if c == '&' {
            push_str(out, "&amp;");
        } else if c == '\u{a0}' {
            push_str(out, "&nbsp;");
        } else if c == '<' {
            push_str(out, "&lt;");
        } else if c == '>' {
            push_str(out, "&gt;");
        } else {
            string_push(out, c);
        }
        proof {
            let cur = v@.subrange(0, i + 1);
            assert(cur.drop_last() =~= v@.subrange(0, i as int));
            assert(cur.last() == c);
            assert(out@ =~= old(out)@ + escape_text(cur));
        }
        i += 1;
    }
    assert(v@.subrange(0, v.len() as int) =~= v@);
}

/// Appends `escape_attr(s)`.
pub fn push_escaped_attr(out: &mut String, s: &str)
    ensures
        final(out)@ == old(out)@ + escape_attr(s@),
{
    let v = str_chars(s);
    let mut i: usize = 0;
    while i < v.len()
        invariant
            i <= v.len(),
            v@ == s@,
            out@ == old(out)@ + escape_attr(v@.subrange(0, i as int)),
        decreases v.len() - i,
    {
        let c = v[i];
        if c == '&' {
            push_str(out, "&amp;");
        } else if c == '\u{a0}' {
            push_str(out, "&nbsp;");
        } else if c == '"' {
            push_str(out, "&quot;");
        } else {
            string_push(out, c);
        }
        proof {
            let cur = v@.subrange(0, i + 1);
            assert(cur.drop_last() =~= v@.subrange(0, i as int));
            assert(cur.last() == c);
            assert(out@ =~= old(out)@ + escape_attr(cur));
        }
        i += 1;
    }
    assert(v@.subrange(0, v.len() as int) =~= v@);
}

pub fn void_name(l: &String) -> (r: bool)
    ensures
        r == is_void_name(l@),
{
    reveal(is_void_name);
    string_is(l, "area") || string_is(l, "base") || string_is(l, "basefont") || string_is(
        l,
        "bgsound",
    ) || string_is(l, "br") || string_is(l, "col") || string_is(l, "embed") || string_is(
        l,
        "frame",
    ) || string_is(l, "hr") || string_is(l, "img") || string_is(l, "input") || string_is(
        l,
        "keygen",
    ) || string_is(l, "link") || string_is(l, "meta") || string_is(l, "param") || string_is(
        l,
        "source",
    ) || string_is(l, "track") || string_is(l, "wbr")
}

pub fn raw_text_name(l: &String) -> (r: bool)
    ensures
        r == is_raw_text_name(l@),
{
    reveal(is_raw_text_name);
    string_is(l, "style") || string_is(l, "script") || string_is(l, "xmp") || string_is(
        l,
        "iframe",
    ) || string_is(l, "noembed") || string_is(l, "noframes") || string_is(l, "plaintext")
        || string_is(l, "noscript")
}

pub fn push_attr_prefix(out: &mut String, ns: &String, local: &String)
    ensures
        final(out)@ == old(out)@ + attr_prefix(ns@, local@),
{
    if ns.as_str().is_empty() {
    } else if string_is(ns, "http://www.w3.org/XML/1998/namespace") {
        push_str(out, "xml:");
    } else if string_is(ns, "http://www.w3.org/2000/xmlns/") {
        if !string_is(local, "xmlns") {
            push_str(out, "xmlns:");
        }
    } else if string_is(ns, "http://www.w3.org/1999/xlink") {
        push_str(out, "xlink:");
    } else {
        push_str(out, "unknown_namespace:");
    }
    assert(final(out)@ =~= old(out)@ + attr_prefix(ns@, local@));
}

/// The value of the first attribute without namespace named `local`.
pub fn get_attr<'a>(attrs: &'a Vec<Attribute>, local: &str) -> (r: Option<&'a String>)
    ensures
        match r {
            Some(v) => attr_value(attrs@, local@) == Some(v@),
            None => attr_value(attrs@, local@) is None,
        },
{
    let mut i: usize = 0;
    assert(attrs@.subrange(0, attrs.len() as int) =~= attrs@);
    while i < attrs.len()
        invariant
            i <= attrs.len(),
            attr_value(attrs@, local@) == attr_value(attrs@.subrange(i as int, attrs.len() as int), local@),
        decreases attrs.len() - i,
    {
        let ghost rest = attrs@.subrange(i as int, attrs.len() as int);
        assert(rest[0] == attrs@[i as int]);
        if attrs[i].name.ns.as_str().is_empty() && string_is(&attrs[i].name.local, local) {
            return Some(&attrs[i].value);
        }
        assert(rest.drop_first() =~= attrs@.subrange(i + 1, attrs.len() as int));
        i += 1;
    }
    None
}

pub fn skip_element_exec(e: &ElementInfo, keep_style: bool, keep_link: bool) -> (r: bool)
    ensures
        r == skip_element(*e, keep_style, keep_link),
{
    reveal(skip_element);
    if string_is(&e.name.local, "style") {
        let keep = match get_attr(&e.attributes.attributes, "data-css-inline") {
            Some(v) => string_is(v, "keep"),
            None => false,
        };
        !keep_style && !keep
    } else if string_is(&e.name.local, "link") {
        let is_sheet = match get_attr(&e.attributes.attributes, "rel") {
            Some(v) => string_is(v, "stylesheet"),
            None => false,
        };
        if is_sheet {
            !keep_link
        } else {
            false
        }
    } else {
        false
    }
}

/// The text of one attribute, written plainly.
pub open spec fn plain_attr_text(a: Attribute) -> Seq<char> {
    attr_head(a) + escape_attr(a.value@) + "\""@
}

pub open spec fn attr_head(a: Attribute) -> Seq<char> {
    " "@ + attr_prefix(a.name.ns@, a.name.local@) + a.name.local@ + "=\""@
}

/// Writes one attribute; when `news` are given and the attribute is `style`, they are merged
/// into it and `true` is returned.
pub fn write_attr(out: &mut String, a: &Attribute, news: Option<&Vec<Entry>>, minify: bool) -> (r:
    Result<bool, SyntaxError>)
    requires
        a.value@.len() < usize::MAX,
    ensures
        match news {
            Some(ns) => if a.name.local@ == "style"@ {
                match (r, merge_style_attribute(a.value@, entries_view(ns@), minify)) {
                    (Ok(b), Ok(m)) => b && final(out)@ == old(out)@ + attr_head(*a) + m + "\""@,
                    (Err(x), Err(y)) => x@ == y,
                    _ => false,
                }
            } else {
                r == Ok::<bool, SyntaxError>(false) && final(out)@ == old(out)@ + plain_attr_text(*a)
            },
            None => r == Ok::<bool, SyntaxError>(false) && final(out)@ == old(out)@
                + plain_attr_text(*a),
        },
{
    push_str(out, " ");
    push_attr_prefix(out, &a.name.ns, &a.name.local);
    push_str(out, a.name.local.as_str());
    push_str(out, "=\"");
    let ghost with_head = out@;
    assert(with_head =~= old(out)@ + attr_head(*a));
    let mut merged = false;
    match news {
        Some(ns) => {
            if string_is(&a.name.local, "style") {
                match merge_styles(out, a.value.as_str(), ns, minify) {
                    Ok(()) => {
                        merged = true;
                    },
                    Err(x) => {
                        return Err(x);
                    },
                }
            } else {
                push_escaped_attr(out, a.value.as_str());
            }
        },
        None => {
            push_escaped_attr(out, a.value.as_str());
        },
    }
    let ghost mid = out@.subrange(with_head.len() as int, out@.len() as int);
    assert(out@ =~= with_head + mid);
    push_str(out, "\"");
    assert(out@ =~= old(out)@ + attr_head(*a) + mid + "\""@);
    Ok(merged)
}

/// Writes the attributes of an element; returns whether `styles` still have to be written.
#[verifier::rlimit(100)]
#[verifier::spinoff_prover]
pub fn write_attributes(
    out: &mut String,
    attrs: &Vec<Attribute>,
    styles: &Option<Vec<Entry>>,
    minify: bool,
) -> (r: Result<bool, SyntaxError>)
    requires
        attrs_fit(attrs@),
    ensures
        match (r, attrs_text(attrs@, opt_entries(*styles), minify)) {
            (Ok(pending), (Ok(t), rest)) => final(out)@ == old(out)@ + t && rest == (if pending {
                opt_entries(*styles)
            } else {
                None
            }) && (pending ==> styles.is_some()),
            (Err(x), (Err(y), _)) => x@ == y,
            _ => false,
        },
{
    let ghost so = opt_entries(*styles);
    let mut pending: bool = styles.is_some();
    let mut i: usize = 0;
    assert(attrs@.subrange(0, 0) =~= Seq::<Attribute>::empty());
    assert(out@.subrange(old(out)@.len() as int, out@.len() as int) =~= Seq::<char>::empty());
    assert(out@.subrange(0, old(out)@.len() as int) =~= old(out)@);
    while i < attrs.len()
        invariant
            i <= attrs.len(),
            attrs_fit(attrs@),
            so == opt_entries(*styles),
            pending ==> styles.is_some(),
            attrs_text(attrs@.subrange(0, i as int), so, minify).0 == Ok::<Seq<char>, SpecSyntaxError>(
                out@.subrange(old(out)@.len() as int, out@.len() as int),
            ),
            out@.len() >= old(out)@.len(),
            out@.subrange(0, old(out)@.len() as int) == old(out)@,
            attrs_text(attrs@.subrange(0, i as int), so, minify).1 == (if pending {
                so
            } else {
                None
            }),
        decreases attrs.len() - i,
    {
        let ghost before = out@;
        let ghost pending_old = pending;
        proof {
            let cur = attrs@.subrange(0, i + 1);
            assert(cur.drop_last() =~= attrs@.subrange(0, i as int));
            assert(cur.last() == attrs@[i as int]);
            assert(attrs@[i as int].value@.len() < usize::MAX);
        }
        let news = if pending {
            match styles {
                Some(ns) => Some(ns),
                None => None,
            }
        } else {
            None
        };
        match write_attr(out, &attrs[i], news, minify) {
            Ok(merged) => {
                if merged {
                    pending = false;
                }
                proof {
                    let added = out@.subrange(before.len() as int, out@.len() as int);
                    assert(out@ =~= before + added);
                    let a = attrs@[i as int];
                    let p = before.subrange(old(out)@.len() as int, before.len() as int);
                    let cur = attrs@.subrange(0, i + 1);
                    if pending_old && a.name.local@ == "style"@ {
                        let m = merge_style_attribute(a.value@, so->Some_0, minify)->Ok_0;
                        assert(added =~= attr_head(a) + m + "\""@);
                        assert(p + (" "@ + attr_prefix(a.name.ns@, a.name.local@) + a.name.local@
                            + "=\""@) + m + "\""@ =~= p + added);
                    } else {
                        assert(added =~= plain_attr_text(a));
                        assert(p + (" "@ + attr_prefix(a.name.ns@, a.name.local@) + a.name.local@
                            + "=\""@) + escape_attr(a.value@) + "\""@ =~= p + added);
                    }
                    assert(attrs_text(cur, so, minify).0 == Ok::<Seq<char>, SpecSyntaxError>(p + added));
                    assert(out@.subrange(old(out)@.len() as int, out@.len() as int) =~= before.subrange(
                        old(out)@.len() as int,
                        before.len() as int,
                    ) + added);
                    assert(out@.subrange(0, old(out)@.len() as int) =~= before.subrange(
                        0,
                        old(out)@.len() as int,
                    ));
                }
            },
            Err(x) => {
                proof {
                    lemma_attrs_err_sticky(attrs@, i + 1, so, minify);
                }
                return Err(x);
            },
        }
        i += 1;
    }
    proof {
        assert(attrs@.subrange(0, attrs.len() as int) =~= attrs@);
        assert(out@ =~= old(out)@ + out@.subrange(old(out)@.len() as int, out@.len() as int));
    }
    Ok(pending)
}

/// Writes the start tag of an element.
#[verifier::rlimit(50)]
pub fn write_start_tag(
    out: &mut String,
    e: &ElementInfo,
    styles: &Option<Vec<Entry>>,
    minify: bool,
) -> (r: Result<(), SyntaxError>)
    requires
        attrs_fit(e.attributes.attributes@),
    ensures
        match (r, start_tag(*e, opt_entries(*styles), minify)) {
            (Ok(()), Ok(t)) => final(out)@ == old(out)@ + t,
            (Err(x), Err(y)) => x@ == y,
            _ => false,
        },
{
    reveal(start_tag);
    let mut body = String::new();
    let pending = match write_attributes(&mut body, &e.attributes.attributes, styles, minify) {
        Ok(p) => p,
        Err(x) => {
            return Err(x);
        },
    };
    let ghost so = opt_entries(*styles);
    let ghost rest = if pending { so } else { None };
    assert(body@ =~= Seq::<char>::empty() + body@);
    assert(attrs_text(e.attributes.attributes@, so, minify).0 == Ok::<Seq<char>, SpecSyntaxError>(body@));
    let ghost o0 = out@;
    push_str(out, "<");
    push_str(out, e.name.local.as_str());
    let ghost o1 = out@;
    match &e.attributes.class {
        Some(c) => {
            push_str(out, " class=\"");
            push_str(out, c.value.as_str());
            push_str(out, "\"");
        },
        None => {},
    }
    assert(out@ =~= o1 + class_text(e.attributes.class));
    push_str(out, body.as_str());
    let ghost o2 = out@;
    if pending {
        match styles {
            Some(news) => {
                push_str(out, " style=\"");
                let normal = normalize_entries(news);
                push_fresh_style(out, &normal, minify);
                push_str(out, "\"");
            },
            None => {},
        }
    }
    assert(out@ =~= o2 + style_text(rest, minify));
    push_str(out, ">");
    proof {
        let t = "<"@ + e.name.local@ + class_text(e.attributes.class) + body@ + style_text(rest, minify) + ">"@;
        assert(start_tag(*e, so, minify) == Ok::<Seq<char>, SpecSyntaxError>(t));
        assert(out@ =~= o0 + t);
    }
    Ok(())
}

/// `(name, trim(value))` for each entry.
pub fn normalize_entries(es: &Vec<Entry>) -> (r: Vec<Entry>)
    ensures
        entries_view(r@) == normalized(entries_view(es@)),
{
    let mut r: Vec<Entry> = Vec::new();
    let mut i: usize = 0;
    while i < es.len()
        invariant
            i <= es.len(),
            entries_view(r@) == normalized(entries_view(es@)).subrange(0, i as int),
        decreases es.len() - i,
    {
        let name = es[i].name.clone();
        let value = crate::declarations::trimmed(&es[i].value);
        let ghost before = entries_view(r@);
        r.push(Entry { name, value });
        assert(entries_view(r@) =~= before.push((es@[i as int].name@, crate::text::trim(es@[i as int].value@))));
        i += 1;
        assert(entries_view(r@) =~= normalized(entries_view(es@)).subrange(0, i as int));
    }
    assert(normalized(entries_view(es@)).subrange(0, es.len() as int) =~= normalized(entries_view(es@)));
    r
}

} // verus!

verus! {

/// The attribute values of every element are shorter than the largest `usize`.
pub open spec fn doc_attrs_fit(nodes: Seq<crate::dom::Node>) -> bool {
    forall|i: int|
        0 <= i < nodes.len() ==> match #[trigger] nodes[i].data {
            NodeData::Element { element, .. } => attrs_fit(element.attributes.attributes@),
            _ => true,
        }
}

/// `r` with `w` written before it.
pub open spec fn after(w: Seq<char>, r: Result<Seq<char>, SpecSyntaxError>) -> Result<
    Seq<char>,
    SpecSyntaxError,
> {
    match r {
        Ok(t) => Ok(w + t),
        Err(e) => Err(e),
    }
}

pub open spec fn chain_from(
    nodes: Seq<crate::dom::Node>,
    cur: Option<NodeId>,
    st: Seq<Option<Seq<(Seq<char>, Seq<char>)>>>,
    o: SerializeOptions,
    ignore: bool,
    raw: bool,
) -> Result<Seq<char>, SpecSyntaxError> {
    match cur {
        Some(c) => ser_chain(nodes, c.0 as int, st, o, ignore, raw),
        None => Ok(seq![]),
    }
}

/// Writes node `id`.
pub fn write_node(
    out: &mut String,
    doc: &Document,
    id: usize,
    st: &Vec<Option<Vec<Entry>>>,
    o: &SerializeOptions,
    ignore: bool,
    raw: bool,
) -> (r: Result<(), SyntaxError>)
    requires
        doc.wf(),
        doc_attrs_fit(doc.nodes@),
        id < doc.nodes.len(),
    ensures
        match (r, ser_node(doc.nodes@, id as int, styles_view(st@), *o, ignore, raw)) {
            (Ok(()), Ok(t)) => final(out)@ == old(out)@ + t,
            (Err(x), Err(y)) => x@ == y,
            _ => false,
        },
    decreases doc.nodes.len() - id, 3int,
{
    let ghost sv = styles_view(st@);
    match &doc.nodes[id].data {
        NodeData::Document => write_kids(out, doc, id, st, o, ignore, raw),
        NodeData::Doctype { name } => {
            push_str(out, "<!DOCTYPE ");
            push_str(out, name.as_str());
            push_str(out, ">");
            assert(final(out)@ =~= old(out)@ + ("<!DOCTYPE "@ + name@ + ">"@));
            Ok(())
        },
        NodeData::Text { text } => {
            if raw {
                push_str(out, text.as_str());
            } else {
                push_escaped_text(out, text.as_str());
            }
            Ok(())
        },
        NodeData::Comment { text } => {
            push_str(out, "<!--");
            push_str(out, text.as_str());
            push_str(out, "-->");
            assert(final(out)@ =~= old(out)@ + ("<!--"@ + text@ + "-->"@));
            Ok(())
        },
        NodeData::ProcessingInstruction { target, data } => {
            push_str(out, "<?");
            push_str(out, target.as_str());
            push_str(out, " ");
            push_str(out, data.as_str());
            push_str(out, ">");
            assert(final(out)@ =~= old(out)@ + ("<?"@ + target@ + " "@ + data@ + ">"@));
            Ok(())
        },
        NodeData::Element { .. } => write_element(out, doc, id, st, o, ignore, raw),
    }
}

/// The output for an element that is written with its tags.
pub open spec fn tagged(
    nodes: Seq<crate::dom::Node>,
    id: int,
    element: ElementInfo,
    styles: Option<Seq<(Seq<char>, Seq<char>)>>,
    st: Seq<Option<Seq<(Seq<char>, Seq<char>)>>>,
    o: SerializeOptions,
    my_void: bool,
    my_raw: bool,
) -> Result<Seq<char>, SpecSyntaxError>
    decreases nodes.len() - id, 1int,
{
    match start_tag(element, styles, o.minify_css) {
        Err(e) => Err(e),
        Ok(t) => match ser_kids(nodes, id, st, o, my_void, my_raw) {
            Err(e) => Err(e),
            Ok(c) => Ok(
                t + head_extra(element, o.at_rules) + c + if my_void {
                    seq![]
                } else {
                    "</"@ + element.name.local@ + ">"@
                },
            ),
        },
    }
}

/// Writes the element node `id`.
pub fn write_element(
    out: &mut String,
    doc: &Document,
    id: usize,
    st: &Vec<Option<Vec<Entry>>>,
    o: &SerializeOptions,
    ignore: bool,
    raw: bool,
) -> (r: Result<(), SyntaxError>)
    requires
        doc.wf(),
        doc_attrs_fit(doc.nodes@),
        id < doc.nodes.len(),
        doc.nodes@[id as int].data is Element,
    ensures
        match (r, ser_element(
            doc.nodes@,
            id as int,
            doc.nodes@[id as int].data->element,
            doc.nodes@[id as int].data->inlining_ignored,
            styles_view(st@),
            *o,
            ignore,
            raw,
        )) {
            (Ok(()), Ok(t)) => final(out)@ == old(out)@ + t,
            (Err(x), Err(y)) => x@ == y,
            _ => false,
        },
    decreases doc.nodes.len() - id, 2int,
{
    let ghost sv = styles_view(st@);
    let (element, inlining_ignored) = match &doc.nodes[id].data {
        NodeData::Element { element, inlining_ignored } => (element, inlining_ignored),
        _ => {
            return Ok(());
        },
    };
    if skip_element_exec(element, o.keep_style_tags, o.keep_link_tags) {
        assert(final(out)@ =~= old(out)@ + Seq::<char>::empty());
        return Ok(());
    }
    let is_html = string_is(&element.name.ns, "http://www.w3.org/1999/xhtml");
    let my_raw = is_html && raw_text_name(&element.name.local);
    let my_void = is_html && void_name(&element.name.local);
    if ignore {
        return write_kids(out, doc, id, st, o, true, my_raw);
    }
    let no_styles: Option<Vec<Entry>> = None;
    let styles: &Option<Vec<Entry>> = if *inlining_ignored || id >= st.len() {
        &no_styles
    } else {
        &st[id]
    };
    proof {
        if !(*inlining_ignored || id >= st.len()) {
            assert(sv[id as int] == opt_entries(st@[id as int]));
        }
    }
    write_tagged(out, doc, id, element, styles, st, o, my_void, my_raw)
}

/// Writes an element with its tags: start tag, kept at-rules, children and end tag.
#[verifier::rlimit(100)]
pub fn write_tagged(
    out: &mut String,
    doc: &Document,
    id: usize,
    element: &ElementInfo,
    styles: &Option<Vec<Entry>>,
    st: &Vec<Option<Vec<Entry>>>,
    o: &SerializeOptions,
    my_void: bool,
    my_raw: bool,
) -> (r: Result<(), SyntaxError>)
    requires
        doc.wf(),
        doc_attrs_fit(doc.nodes@),
        id < doc.nodes.len(),
        doc.nodes@[id as int].data is Element,
        *element == doc.nodes@[id as int].data->element,
    ensures
        match (r, tagged(doc.nodes@, id as int, *element, opt_entries(*styles), styles_view(st@), *o, my_void, my_raw)) {
            (Ok(()), Ok(t)) => final(out)@ == old(out)@ + t,
            (Err(x), Err(y)) => x@ == y,
            _ => false,
        },
    decreases doc.nodes.len() - id, 1int,
{
    proof {
        assert(match doc.nodes@[id as int].data {
            NodeData::Element { element, .. } => attrs_fit(element.attributes.attributes@),
            _ => true,
        });
    }
    let ghost o0 = out@;
    match write_start_tag(out, element, styles, o.minify_css) {
        Ok(()) => {},
        Err(x) => {
            return Err(x);
        },
    }
    let ghost o1 = out@;
    let is_head = string_is(&element.name.ns, "http://www.w3.org/1999/xhtml") && string_is(
        &element.name.local,
        "head",
    );
    if is_head {
        match &o.at_rules {
            Some(rules) => {
                if !rules.as_str().is_empty() {
                    push_str(out, "<style>");
                    push_str(out, rules.as_str());
                    push_str(out, "</style>");
                }
            },
            None => {},
        }
    }
    assert(out@ =~= o1 + head_extra(*element, o.at_rules));
    let ghost o2 = out@;
    match write_kids(out, doc, id, st, o, my_void, my_raw) {
        Ok(()) => {},
        Err(x) => {
            return Err(x);
        },
    }
    let ghost o3 = out@;
    if !my_void {
        push_str(out, "</");
        push_str(out, element.name.local.as_str());
        push_str(out, ">");
    }
    proof {
        let end = if my_void {
            Seq::<char>::empty()
        } else {
            "</"@ + element.name.local@ + ">"@
        };
        assert(out@ =~= o3 + end);
        assert(out@ =~= o0 + o1.subrange(o0.len() as int, o1.len() as int) + head_extra(
            *element,
            o.at_rules,
        ) + o3.subrange(o2.len() as int, o3.len() as int) + end);
    }
    Ok(())
}

/// Writes the children of node `id`.
pub fn write_kids(
    out: &mut String,
    doc: &Document,
    id: usize,
    st: &Vec<Option<Vec<Entry>>>,
    o: &SerializeOptions,
    ignore: bool,
    raw: bool,
) -> (r: Result<(), SyntaxError>)
    requires
        doc.wf(),
        doc_attrs_fit(doc.nodes@),
        id < doc.nodes.len(),
    ensures
        match (r, ser_kids(doc.nodes@, id as int, styles_view(st@), *o, ignore, raw)) {
            (Ok(()), Ok(t)) => final(out)@ == old(out)@ + t,
            (Err(x), Err(y)) => x@ == y,
            _ => false,
        },
    decreases doc.nodes.len() - id, 0int,
{
    let ghost nodes = doc.nodes@;
    let ghost sv = styles_view(st@);
    let n = doc.nodes.len();
    let mut cur: Option<NodeId> = match doc.nodes[id].first_child {
        Some(f) => if id < f.0 && f.0 < n {
            Some(f)
        } else {
            None
        },
        None => None,
    };
    assert(out@.subrange(old(out)@.len() as int, out@.len() as int) =~= Seq::<char>::empty());
    assert(out@.subrange(0, old(out)@.len() as int) =~= old(out)@);
    assert(ser_kids(nodes, id as int, sv, *o, ignore, raw) == after(
        Seq::<char>::empty(),
        chain_from(nodes, cur, sv, *o, ignore, raw),
    )) by {
        let r = chain_from(nodes, cur, sv, *o, ignore, raw);
        match r {
            Ok(t) => {
                assert(Seq::<char>::empty() + t =~= t);
            },
            Err(_) => {},
        }
    }
    while cur.is_some()
        invariant
            doc.wf(),
            doc_attrs_fit(doc.nodes@),
            nodes == doc.nodes@,
            sv == styles_view(st@),
            n == doc.nodes.len(),
            id < n,
            match cur {
                Some(c) => id < c.0 < n,
                None => true,
            },
            out@.len() >= old(out)@.len(),
            out@.subrange(0, old(out)@.len() as int) == old(out)@,
            ser_kids(nodes, id as int, sv, *o, ignore, raw) == after(
                out@.subrange(old(out)@.len() as int, out@.len() as int),
                chain_from(nodes, cur, sv, *o, ignore, raw),
            ),
        decreases n - match cur {
            Some(c) => c.0 as int,
            None => n as int,
        },
    {
        let c = cur.unwrap();
        let ghost before = out@;
        let ghost w = before.subrange(old(out)@.len() as int, before.len() as int);
        match write_node(out, doc, c.0, st, o, ignore, raw) {
            Ok(()) => {
                proof {
                    let tt = ser_node(nodes, c.0 as int, sv, *o, ignore, raw)->Ok_0;
                    assert(out@.subrange(before.len() as int, out@.len() as int) =~= tt);
                }
            },
            Err(x) => {
                return Err(x);
            },
        }
        let ghost t = out@.subrange(before.len() as int, out@.len() as int);
        assert(out@ =~= before + t);
        proof {
            assert(node_links_ok(nodes, c.0 as int));
        }
        let next = doc.nodes[c.0].next_sibling;
        cur = match next {
            Some(x) => if c.0 < x.0 && x.0 < n {
                Some(x)
            } else {
                None
            },
            None => None,
        };
        proof {
            let rest = chain_from(nodes, cur, sv, *o, ignore, raw);
            assert(ser_chain(nodes, c.0 as int, sv, *o, ignore, raw) == after(t, rest)) by {
                match rest {
                    Ok(r) => {
                        if cur is None {
                            assert(t + Seq::<char>::empty() =~= t);
                        }
                    },
                    Err(_) => {},
                }
            }
            assert(out@.subrange(old(out)@.len() as int, out@.len() as int) =~= w + t);
            assert(out@.subrange(0, old(out)@.len() as int) =~= before.subrange(0, old(out)@.len() as int));
            match rest {
                Ok(r) => {
                    assert(w + (t + r) =~= (w + t) + r);
                },
                Err(_) => {},
            }
        }
    }
    proof {
        assert(out@ =~= old(out)@ + out@.subrange(old(out)@.len() as int, out@.len() as int));
        assert(out@.subrange(old(out)@.len() as int, out@.len() as int) + Seq::<char>::empty()
            =~= out@.subrange(old(out)@.len() as int, out@.len() as int));
    }
    Ok(())
}

/// Writes a whole document.
pub fn serialize_document(
    out: &mut String,
    doc: &Document,
    st: &Vec<Option<Vec<Entry>>>,
    o: &SerializeOptions,
) -> (r: Result<(), SyntaxError>)
    requires
        doc.wf(),
        doc_attrs_fit(doc.nodes@),
    ensures
        match (r, serialized(*doc, styles_view(st@), *o)) {
            (Ok(()), Ok(t)) => final(out)@ == old(out)@ + t,
            (Err(x), Err(y)) => x@ == y,
            _ => false,
        },
{
    write_node(out, doc, 1, st, o, false, false)
}

} // verus!
