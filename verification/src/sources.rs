//! Where the CSS to inline comes from: the text of `style` elements, the stylesheets that
//! `link` elements refer to, extra CSS given in the options and the CSS given with a
//! fragment. The pieces are gathered into one buffer, in that order.
use vstd::prelude::*;
use crate::dom::{Document, NodeData, NodeId};
use crate::serializer::{attr_value, get_attr};
use crate::text::str_chars;

verus! {

/// The text of the `style` element `id`: its first child, when that is a text node.
pub open spec fn style_text_of(nodes: Seq<crate::dom::Node>, id: int) -> Option<Seq<char>> {
    if 0 <= id < nodes.len() {
        match nodes[id].first_child {
            Some(c) => if 0 <= c.0 < nodes.len() {
                match nodes[c.0 as int].data {
                    NodeData::Text { text } => Some(text@),
                    _ => None,
                }
            } else {
                None
            },
            None => None,
        }
    } else {
        None
    }
}

/// The texts of the `style` elements `ids`, in order, leaving out those without text.
pub open spec fn style_texts(nodes: Seq<crate::dom::Node>, ids: Seq<NodeId>) -> Seq<Seq<char>>
    decreases ids.len(),
{
    if ids.len() == 0 {
        seq![]
    } else {
        style_texts(nodes, ids.drop_last()) + match style_text_of(nodes, ids.last().0 as int) {
            Some(t) => seq![t],
            None => seq![],
        }
    }
}

/// The `href` of the `link` element `id`.
pub open spec fn href_of(nodes: Seq<crate::dom::Node>, id: int) -> Option<Seq<char>> {
    if 0 <= id < nodes.len() {
        match nodes[id].data {
            NodeData::Element { element, .. } => attr_value(element.attributes.attributes@, "href"@),
            _ => None,
        }
    } else {
        None
    }
}

/// The `href` of the `link` elements `ids`, in order.
pub open spec fn hrefs(nodes: Seq<crate::dom::Node>, ids: Seq<NodeId>) -> Seq<Seq<char>>
    decreases ids.len(),
{
    if ids.len() == 0 {
        seq![]
    } else {
        hrefs(nodes, ids.drop_last()) + match href_of(nodes, ids.last().0 as int) {
            Some(h) => seq![h],
            None => seq![],
        }
    }
}

pub open spec fn pair_texts(ps: Seq<(NodeId, String)>) -> Seq<Seq<char>> {
    ps.map_values(|p: (NodeId, String)| p.1@)
}

/// The texts of the document's `style` elements, each with its element.
pub fn document_styles(doc: &Document) -> (r: Vec<(NodeId, String)>)
    requires
        doc.wf(),
    ensures
        pair_texts(r@) == style_texts(doc.nodes@, doc.styles@),
        forall|k: int| 0 <= k < r.len() ==> 1 <= (#[trigger] r@[k]).0.0 < doc.nodes.len(),
{
    let mut out: Vec<(NodeId, String)> = Vec::new();
    let mut i: usize = 0;
    assert(doc.styles@.subrange(0, 0) =~= Seq::<NodeId>::empty());
    while i < doc.styles.len()
        invariant
            i <= doc.styles.len(),
            doc.wf(),
            pair_texts(out@) == style_texts(doc.nodes@, doc.styles@.subrange(0, i as int)),
            forall|k: int| 0 <= k < out.len() ==> 1 <= (#[trigger] out@[k]).0.0 < doc.nodes.len(),
        decreases doc.styles.len() - i,
    {
        let ghost before = pair_texts(out@);
        proof {
            let cur = doc.styles@.subrange(0, i + 1);
            assert(cur.drop_last() =~= doc.styles@.subrange(0, i as int));
            assert(cur.last() == doc.styles@[i as int]);
        }
        let id = doc.styles[i];
        if 1 <= id.0 && id.0 < doc.nodes.len() {
            match doc.nodes[id.0].first_child {
                Some(c) => {
                    if c.0 < doc.nodes.len() {
                        match &doc.nodes[c.0].data {
                            NodeData::Text { text } => {
                                out.push((id, text.clone()));
                                assert(pair_texts(out@) =~= before.push(text@));
                            },
                            _ => {},
                        }
                    }
                },
                None => {},
            }
        } else {
            assert(1 <= doc.styles@[i as int].0 < doc.nodes.len());
        }
        i += 1;
    }
    assert(doc.styles@.subrange(0, doc.styles.len() as int) =~= doc.styles@);
    out
}

/// The `href` of the document's `link` elements that refer to stylesheets.
pub fn document_stylesheets(doc: &Document) -> (r: Vec<String>)
    ensures
        r@.map_values(|s: String| s@) == hrefs(doc.nodes@, doc.linked_stylesheets@),
{
    let mut out: Vec<String> = Vec::new();
    let mut i: usize = 0;
    let ids = &doc.linked_stylesheets;
    assert(ids@.subrange(0, 0) =~= Seq::<NodeId>::empty());
    while i < ids.len()
        invariant
            i <= ids.len(),
            ids == &doc.linked_stylesheets,
            out@.map_values(|s: String| s@) == hrefs(doc.nodes@, ids@.subrange(0, i as int)),
        decreases ids.len() - i,
    {
        let ghost before = out@.map_values(|s: String| s@);
        proof {
            let cur = ids@.subrange(0, i + 1);
            assert(cur.drop_last() =~= ids@.subrange(0, i as int));
            assert(cur.last() == ids@[i as int]);
        }
        let id = ids[i].0;
        if id < doc.nodes.len() {
            match &doc.nodes[id].data {
                NodeData::Element { element, .. } => {
                    match get_attr(&element.attributes.attributes, "href") {
                        Some(h) => {
                            out.push(h.clone());
                            assert(out@.map_values(|s: String| s@) =~= before.push(h@));
                        },
                        None => {},
                    }
                },
                _ => {},
            }
        }
        i += 1;
    }
    assert(ids@.subrange(0, ids.len() as int) =~= ids@);
    out
}

// ---------------------------------------------------------------------------------------
// Ordering locations
// ---------------------------------------------------------------------------------------

/// Lexicographic order on character sequences, by code point; for UTF-8 strings it is the
/// order of `str`.
pub open spec fn lex_lt(a: Seq<char>, b: Seq<char>) -> bool
    decreases a.len(),
{
    if a.len() == 0 {
        b.len() > 0
    } else if b.len() == 0 {
        false
    } else if a[0] != b[0] {
        a[0] < b[0]
    } else {
        lex_lt(a.drop_first(), b.drop_first())
    }
}

pub proof fn lemma_lex_irreflexive(a: Seq<char>)
    ensures
        !lex_lt(a, a),
    decreases a.len(),
{
    if a.len() > 0 {
        lemma_lex_irreflexive(a.drop_first());
    }
}

pub proof fn lemma_lex_transitive(a: Seq<char>, b: Seq<char>, c: Seq<char>)
    requires
        lex_lt(a, b),
        lex_lt(b, c),
    ensures
        lex_lt(a, c),
    decreases a.len(),
{
    if a.len() > 0 && b.len() > 0 && c.len() > 0 {
        if a[0] == b[0] && b[0] == c[0] {
            lemma_lex_transitive(a.drop_first(), b.drop_first(), c.drop_first());
        }
    }
}

pub proof fn lemma_lex_total(a: Seq<char>, b: Seq<char>)
    ensures
        a == b || lex_lt(a, b) || lex_lt(b, a),
    decreases a.len(),
{
    if a.len() == 0 && b.len() == 0 {
        assert(a =~= b);
    } else if a.len() > 0 && b.len() > 0 && a[0] == b[0] {
        lemma_lex_total(a.drop_first(), b.drop_first());
        if a.drop_first() == b.drop_first() {
            assert(a =~= seq![a[0]] + a.drop_first());
            assert(b =~= seq![b[0]] + b.drop_first());
        }
    }
}

/// Whether `a` comes before `b`.
pub fn lex_less(a: &Vec<char>, b: &Vec<char>) -> (r: bool)
    ensures
        r == lex_lt(a@, b@),
{
    let mut i: usize = 0;
    assert(a@.subrange(0, a.len() as int) =~= a@);
    assert(b@.subrange(0, b.len() as int) =~= b@);
    while i < a.len() && i < b.len() && a[i] == b[i]
        invariant
            i <= a.len(),
            i <= b.len(),
            lex_lt(a@, b@) == lex_lt(a@.subrange(i as int, a.len() as int), b@.subrange(i as int, b.len() as int)),
        decreases a.len() - i,
    {
        proof {
            let sa = a@.subrange(i as int, a.len() as int);
            let sb = b@.subrange(i as int, b.len() as int);
            assert(sa.drop_first() =~= a@.subrange(i + 1, a.len() as int));
            assert(sb.drop_first() =~= b@.subrange(i + 1, b.len() as int));
        }
        i += 1;
    }
    if i == a.len() {
        i < b.len()
    } else if i == b.len() {
        false
    } else {
        a[i] < b[i]
    }
}

/// Each element comes strictly before the next ones.
pub open spec fn strictly_sorted(s: Seq<Seq<char>>) -> bool {
    forall|i: int, j: int| 0 <= i < j < s.len() ==> lex_lt(#[trigger] s[i], #[trigger] s[j])
}

pub open spec fn vecs_view(v: Seq<Vec<char>>) -> Seq<Seq<char>> {
    v.map_values(|x: Vec<char>| x@)
}

pub open spec fn strings_view(v: Seq<String>) -> Seq<Seq<char>> {
    v.map_values(|x: String| x@)
}

/// The locations in order, each once (as `sort_unstable` then `dedup` leave them).
pub fn sorted_unique(items: &Vec<String>) -> (r: Vec<Vec<char>>)
    ensures
        strictly_sorted(vecs_view(r@)),
        forall|x: Seq<char>| #[trigger] vecs_view(r@).contains(x) <==> strings_view(items@).contains(x),
{
    let ghost iv = strings_view(items@);
    let mut out: Vec<Vec<char>> = Vec::new();
    let mut i: usize = 0;
    while i < items.len()
        invariant
            i <= items.len(),
            iv == strings_view(items@),
            strictly_sorted(vecs_view(out@)),
            forall|x: Seq<char>| #[trigger] vecs_view(out@).contains(x) <==> iv.subrange(0, i as int).contains(x),
        decreases items.len() - i,
    {
        let x = str_chars(items[i].as_str());
        let ghost old_out = out@;
        let ghost ov = vecs_view(out@);
        let mut p: usize = 0;
        loop
            invariant
                p <= out.len(),
                ov == vecs_view(out@),
                forall|k: int| 0 <= k < p ==> lex_lt(#[trigger] ov[k], x@),
            ensures
                p <= out.len(),
                forall|k: int| 0 <= k < p ==> lex_lt(#[trigger] ov[k], x@),
                p < out.len() ==> !lex_lt(ov[p as int], x@),
            decreases out.len() - p,
        {
            if p >= out.len() {
                break;
            }
            if !lex_less(&out[p], &x) {
                break;
            }
            p += 1;
        }
        let found = p < out.len() && crate::text::chars_eq(&out[p], &x);
        proof {
            assert(iv.subrange(0, i + 1) =~= iv.subrange(0, i as int).push(x@));
            assert(items@[i as int]@ == iv[i as int]);
        }
        if !found {
            out.insert(p, x);
            proof {
                let before = ov;
                let nv = vecs_view(out@);
                assert(nv =~= before.subrange(0, p as int).push(x@) + before.subrange(p as int, before.len() as int));
                if p < before.len() {
                    lemma_lex_total(before[p as int], x@);
                    assert(lex_lt(x@, before[p as int]));
                }
                assert forall|a: int, b: int| 0 <= a < b < nv.len() implies lex_lt(#[trigger] nv[a], #[trigger] nv[b]) by {
                    if b == p {
                        assert(nv[a] == before[a]);
                    } else if a == p {
                        assert(nv[b] == before[b - 1]);
                        if b - 1 > p {
                            lemma_lex_transitive(x@, before[p as int], before[b - 1]);
                        }
                    } else if a < p && b > p {
                        assert(nv[a] == before[a]);
                        assert(nv[b] == before[b - 1]);
                        if b - 1 > p {
                            lemma_lex_transitive(x@, before[p as int], before[b - 1]);
                        }
                        lemma_lex_transitive(before[a], x@, before[b - 1]);
                    } else if b < p {
                        assert(nv[a] == before[a]);
                        assert(nv[b] == before[b]);
                    } else {
                        assert(nv[a] == before[a - 1]);
                        assert(nv[b] == before[b - 1]);
                    }
                }
                assert forall|y: Seq<char>| #[trigger] vecs_view(out@).contains(y) <==> iv.subrange(0, i + 1).contains(y) by {
                    if nv.contains(y) {
                        let k = choose|k: int| 0 <= k < nv.len() && #[trigger] nv[k] == y;
                        if k < p {
                            assert(before[k] == y);
                            assert(vecs_view(old_out).contains(y));
                        } else if k > p {
                            assert(before[k - 1] == y);
                            assert(vecs_view(old_out).contains(y));
                        } else {
                            assert(iv.subrange(0, i + 1)[i as int] == y);
                        }
                    }
                    if iv.subrange(0, i + 1).contains(y) {
                        if y == x@ {
                            assert(nv[p as int] == y);
                        } else {
                            let k = choose|k: int| 0 <= k < i + 1 && #[trigger] iv.subrange(0, i + 1)[k] == y;
                            assert(k < i);
                            assert(iv.subrange(0, i as int)[k] == y);
                            assert(vecs_view(old_out).contains(y));
                            let m = choose|m: int| 0 <= m < before.len() && #[trigger] before[m] == y;
                            if m < p {
                                assert(nv[m] == y);
                            } else {
                                assert(nv[m + 1] == y);
                            }
                        }
                    }
                }
            }
        } else {
            proof {
                assert forall|y: Seq<char>| #[trigger] vecs_view(out@).contains(y) <==> iv.subrange(0, i + 1).contains(y) by {
                    if y == x@ {
                        assert(ov[p as int] == y);
                        assert(iv.subrange(0, i + 1)[i as int] == y);
                    } else {
                        if iv.subrange(0, i + 1).contains(y) {
                            let k = choose|k: int| 0 <= k < i + 1 && #[trigger] iv.subrange(0, i + 1)[k] == y;
                            assert(iv.subrange(0, i as int)[k] == y);
                        }
                        if vecs_view(out@).contains(y) {
                            assert(iv.subrange(0, i as int).contains(y));
                            let k = choose|k: int| 0 <= k < i && #[trigger] iv.subrange(0, i as int)[k] == y;
                            assert(iv.subrange(0, i + 1)[k] == y);
                        }
                    }
                }
            }
        }
        i += 1;
    }
    assert(iv.subrange(0, items.len() as int) =~= iv);
    out
}

// ---------------------------------------------------------------------------------------
// The CSS buffer
// ---------------------------------------------------------------------------------------

/// Where a piece of the gathered CSS comes from.
#[derive(Clone, Copy, PartialEq, Eq, Structural, Debug)]
pub enum CssOrigin {
    StyleNode(NodeId),
    LinkedStylesheet,
    ExtraCss,
    FragmentCss,
}

/// The characters `[start, end)` of the gathered CSS, and where they come from.
#[derive(Clone, Copy, PartialEq, Eq, Structural, Debug)]
pub struct CssChunk {
    pub start: usize,
    pub end: usize,
    pub origin: CssOrigin,
}

/// The CSS gathered from all sources, and, when they are tracked, the pieces it is made of.
pub struct CssBuffer {
    pub raw: Vec<char>,
    pub chunks: Option<Vec<CssChunk>>,
}

/// `raw` after `content` is added: nothing for empty content, else the content followed by
/// a newline when asked for.
pub open spec fn buffer_push(raw: Seq<char>, content: Seq<char>, append_newline: bool) -> Seq<char> {
    if content.len() == 0 {
        raw
    } else if append_newline {
        raw + content + seq!['\n']
    } else {
        raw + content
    }
}

impl CssBuffer {
    /// An empty buffer; its pieces are tracked when asked for.
    pub fn new(track_chunks: bool) -> (r: CssBuffer)
        ensures
            r.raw@.len() == 0,
            r.chunks is Some == track_chunks,
            r.chunks matches Some(c) ==> c@.len() == 0,
    {
        CssBuffer { raw: Vec::new(), chunks: if track_chunks { Some(Vec::new()) } else { None } }
    }

    /// Adds a piece of CSS, followed by a newline when asked for; empty pieces are left out.
    /// When pieces are tracked and the piece has an origin, it is recorded with the range it
    /// takes, its newline included.
    pub fn push(&mut self, origin: Option<CssOrigin>, content: &str, append_newline: bool)
        ensures
            final(self).raw@ == buffer_push(old(self).raw@, content@, append_newline),
            final(self).chunks is Some == old(self).chunks is Some,
            match (old(self).chunks, final(self).chunks) {
                (Some(c0), Some(c1)) => if content@.len() > 0 && origin is Some {
                    c1@ == c0@.push(CssChunk {
                        start: old(self).raw.len(),
                        end: final(self).raw.len(),
                        origin: origin->Some_0,
                    })
                } else {
                    c1@ == c0@
                },
                _ => true,
            },
    {
        let chars = str_chars(content);
        if chars.len() == 0 {
            return;
        }
        let start = self.raw.len();
        let mut i: usize = 0;
        while i < chars.len()
            invariant
                i <= chars.len(),
                self.raw@ == old(self).raw@ + chars@.subrange(0, i as int),
                self.chunks == old(self).chunks,
                start == old(self).raw.len(),
            decreases chars.len() - i,
        {
            self.raw.push(chars[i]);
            i += 1;
            assert(self.raw@ =~= old(self).raw@ + chars@.subrange(0, i as int));
        }
        assert(chars@.subrange(0, chars.len() as int) =~= chars@);
        if append_newline {
            self.raw.push('\n');
        }
        let end = self.raw.len();
        match origin {
            Some(o) => {
                match &mut self.chunks {
                    Some(c) => {
                        c.push(CssChunk { start, end, origin: o });
                    },
                    None => {},
                }
            },
            None => {},
        }
    }

    /// The gathered CSS and its pieces.
    pub fn into_parts(self) -> (r: (Vec<char>, Option<Vec<CssChunk>>))
        ensures
            r.0@ == self.raw@,
            r.1 == self.chunks,
    {
        (self.raw, self.chunks)
    }
}

} // verus!
