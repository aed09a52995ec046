//! Properties of the inliner that hold for all inputs.
use vstd::prelude::*;
use crate::cascade::{apply_decl, apply_decls, element_style, find_styled, is_important_value, wins};
use crate::declarations::{ends_with_seq, important_marker, merge_state, find_entry};
use crate::dom::{Node, NodeData};
use crate::cleanup::{cleaned, decl_text, decls_text, has_unmatched, steps_ok};
use crate::html::selector_specificity;
use crate::inliner::{count_set, ranks_of, specificity_table, actions_for, output_options, split_on, usages_for, CssRule, InlineOptions};
use crate::inliner::{gathered, pushed_all, gathered_with, inline_outcome, inlined_from, resolver_failed, rules_to_inline, style_pieces};
use crate::cascade::Application;
use crate::error::InlineError;
use crate::tree_builder::ParsedDocument;
use crate::resolver::StylesheetResolver;
use crate::sources::CssChunk;
use crate::serializer::{attr_value, escape_attr, escape_attr_char, escape_text, escape_text_char, ser_node, skip_element, SerializeOptions, tagged};
use crate::serializer::{head_extra, html_ns, is_raw_text_name, is_void_name, ser_chain, ser_element, ser_kids, start_tag};
use crate::text::trim;

verus! {

/// No two entries share a name.
pub open spec fn names_unique(es: Seq<(Seq<char>, Seq<char>, int)>) -> bool {
    forall|i: int, j: int| 0 <= i < j < es.len() ==> #[trigger] es[i].0 != #[trigger] es[j].0
}

proof fn lemma_find_styled(es: Seq<(Seq<char>, Seq<char>, int)>, name: Seq<char>)
    ensures
        -1 <= find_styled(es, name) < es.len(),
        find_styled(es, name) == -1 ==> forall|i: int| 0 <= i < es.len() ==> #[trigger] es[i].0 != name,
        find_styled(es, name) >= 0 ==> es[find_styled(es, name)].0 == name,
    decreases es.len(),
{
    if es.len() > 0 && es[0].0 != name {
        lemma_find_styled(es.drop_first(), name);
        assert forall|i: int| 0 < i < es.len() implies es[i] == es.drop_first()[i - 1] by {}
    }
}

proof fn lemma_apply_decl_unique(es: Seq<(Seq<char>, Seq<char>, int)>, d: (Seq<char>, Seq<char>), rank: int)
    requires
        names_unique(es),
    ensures
        names_unique(apply_decl(es, d, rank)),
{
    lemma_find_styled(es, d.0);
    let r = apply_decl(es, d, rank);
    assert forall|i: int, j: int| 0 <= i < j < r.len() implies #[trigger] r[i].0 != #[trigger] r[j].0 by {
        if find_styled(es, d.0) < 0 {
            if j == es.len() {
                assert(es[i].0 != d.0);
            } else {
                assert(es[i].0 != es[j].0);
            }
        } else {
            assert(es[i].0 != es[j].0);
        }
    }
}

proof fn lemma_apply_decls_unique(es: Seq<(Seq<char>, Seq<char>, int)>, ds: Seq<(Seq<char>, Seq<char>)>, rank: int)
    requires
        names_unique(es),
    ensures
        names_unique(apply_decls(es, ds, rank)),
    decreases ds.len(),
{
    if ds.len() > 0 {
        lemma_apply_decls_unique(es, ds.drop_last(), rank);
        lemma_apply_decl_unique(apply_decls(es, ds.drop_last(), rank), ds.last(), rank);
    }
}

/// Each property appears at most once among the declarations the cascade gives an element.
pub proof fn law_cascade_properties_unique(
    apps: Seq<(int, int, Seq<bool>)>,
    rules: Seq<Seq<(Seq<char>, Seq<char>)>>,
    e: int,
)
    ensures
        element_style(apps, rules, e) matches Some(es) ==> names_unique(es),
    decreases apps.len(),
{
    if apps.len() > 0 {
        law_cascade_properties_unique(apps.drop_last(), rules, e);
        let prev = element_style(apps.drop_last(), rules, e);
        let a = apps.last();
        if 0 <= e < a.2.len() && a.2[e] && 0 <= a.0 < rules.len() {
            let base = match prev {
                Some(p) => p,
                None => Seq::<(Seq<char>, Seq<char>, int)>::empty(),
            };
            lemma_apply_decls_unique(base, rules[a.0], a.1);
        }
    }
}

/// An `!important` declaration replaces a declaration of the same property that is not
/// important, whatever their specificities; a declaration that is not important never
/// replaces an important one.
pub proof fn law_important_wins(
    es: Seq<(Seq<char>, Seq<char>, int)>,
    d: (Seq<char>, Seq<char>),
    rank: int,
)
    ensures
        find_styled(es, d.0) >= 0 && is_important_value(d.1) && !is_important_value(
            es[find_styled(es, d.0)].1,
        ) ==> apply_decl(es, d, rank)[find_styled(es, d.0)] == (d.0, d.1, rank),
        find_styled(es, d.0) >= 0 && !is_important_value(d.1) && is_important_value(
            es[find_styled(es, d.0)].1,
        ) ==> apply_decl(es, d, rank) == es,
        apply_decl(es, d, rank).len() >= es.len(),
{
    lemma_find_styled(es, d.0);
}

/// Between declarations of the same importance, the one of the more specific selector wins,
/// and the later one wins between equally specific selectors.
pub proof fn law_specificity_wins(
    es: Seq<(Seq<char>, Seq<char>, int)>,
    d: (Seq<char>, Seq<char>),
    rank: int,
)
    requires
        find_styled(es, d.0) >= 0,
        is_important_value(d.1) == is_important_value(es[find_styled(es, d.0)].1),
    ensures
        es[find_styled(es, d.0)].2 <= rank ==> apply_decl(es, d, rank)[find_styled(es, d.0)] == (
            d.0,
            d.1,
            rank,
        ),
        es[find_styled(es, d.0)].2 > rank ==> apply_decl(es, d, rank) == es,
{
    lemma_find_styled(es, d.0);
}

/// When no new declaration is `!important`, the declarations an element already has in its
/// `style` attribute are kept as they are.
pub proof fn law_existing_styles_kept(
    existing: Seq<(Seq<char>, Seq<char>)>,
    news: Seq<(Seq<char>, Seq<char>)>,
)
    requires
        forall|i: int| 0 <= i < news.len() ==> !ends_with_seq(trim(#[trigger] news[i].1), important_marker()),
    ensures
        merge_state(existing, news).1 == existing,
    decreases news.len(),
{
    if news.len() > 0 {
        assert forall|i: int| 0 <= i < news.drop_last().len() implies !ends_with_seq(
            trim(#[trigger] news.drop_last()[i].1),
            important_marker(),
        ) by {
            assert(news.drop_last()[i] == news[i]);
        }
        law_existing_styles_kept(existing, news.drop_last());
        assert(!ends_with_seq(trim(news[news.len() - 1].1), important_marker()));
    }
}

proof fn lemma_find_entry(es: Seq<(Seq<char>, Seq<char>)>, name: Seq<char>)
    ensures
        -1 <= find_entry(es, name) < es.len(),
    decreases es.len(),
{
    if es.len() > 0 && es[0].0 != name {
        lemma_find_entry(es.drop_first(), name);
    }
}

/// An `!important` declaration in the `style` attribute is kept whatever the new
/// declarations are, and the existing declarations keep their number and order.
pub proof fn law_inline_important_kept(
    existing: Seq<(Seq<char>, Seq<char>)>,
    news: Seq<(Seq<char>, Seq<char>)>,
    k: int,
)
    requires
        0 <= k < existing.len(),
        ends_with_seq(existing[k].1, important_marker()),
    ensures
        merge_state(existing, news).1.len() == existing.len(),
        merge_state(existing, news).1[k] == existing[k],
    decreases news.len(),
{
    if news.len() > 0 {
        law_inline_important_kept(existing, news.drop_last(), k);
        let prev = merge_state(existing, news.drop_last());
        lemma_find_entry(prev.1, news.last().0);
    }
}

/// Without `keep_style_tags`, a `style` element is removed from the output unless it is
/// marked `data-css-inline="keep"`.
pub proof fn law_style_tags_removed(
    nodes: Seq<Node>,
    id: int,
    st: Seq<Option<Seq<(Seq<char>, Seq<char>)>>>,
    o: SerializeOptions,
    ignore: bool,
    raw: bool,
)
    requires
        0 <= id < nodes.len(),
        nodes[id].data matches NodeData::Element { element, .. } && element.name.local@ == "style"@
            && attr_value(element.attributes.attributes@, "data-css-inline"@) != Some("keep"@),
        !o.keep_style_tags,
    ensures
        ser_node(nodes, id, st, o, ignore, raw) == Ok::<Seq<char>, crate::css::SpecSyntaxError>(
            seq![],
        ),
{
    reveal(skip_element);
}

/// Without `keep_link_tags`, a `link` element that refers to a stylesheet is removed from
/// the output.
pub proof fn law_link_tags_removed(
    nodes: Seq<Node>,
    id: int,
    st: Seq<Option<Seq<(Seq<char>, Seq<char>)>>>,
    o: SerializeOptions,
    ignore: bool,
    raw: bool,
)
    requires
        0 <= id < nodes.len(),
        nodes[id].data matches NodeData::Element { element, .. } && element.name.local@ == "link"@
            && attr_value(element.attributes.attributes@, "rel"@) == Some("stylesheet"@),
        !o.keep_link_tags,
    ensures
        ser_node(nodes, id, st, o, ignore, raw) == Ok::<Seq<char>, crate::css::SpecSyntaxError>(
            seq![],
        ),
{
    reveal(skip_element);
    let e = nodes[id].data->element;
    assert(e.name.local@ != "style"@) by {
        reveal_strlit("link");
        reveal_strlit("style");
        assert(e.name.local@.len() == 4);
    }
}

/// A `style` element marked `data-css-inline="keep"` is kept in the output.
pub proof fn law_keep_attribute_keeps_style(
    nodes: Seq<Node>,
    id: int,
    st: Seq<Option<Seq<(Seq<char>, Seq<char>)>>>,
    o: SerializeOptions,
    ignore: bool,
    raw: bool,
)
    requires
        0 <= id < nodes.len(),
        nodes[id].data matches NodeData::Element { element, .. } && element.name.local@ == "style"@
            && attr_value(element.attributes.attributes@, "data-css-inline"@) == Some("keep"@),
    ensures
        !skip_element(nodes[id].data->element, o.keep_style_tags, o.keep_link_tags),
{
    reveal(skip_element);
}

/// An element marked `data-css-inline="ignore"` receives no styles: its start tag is written
/// as if no rule matched it.
pub proof fn law_ignored_elements_unstyled(
    nodes: Seq<Node>,
    id: int,
    st: Seq<Option<Seq<(Seq<char>, Seq<char>)>>>,
    o: SerializeOptions,
    raw: bool,
)
    requires
        0 <= id < nodes.len(),
        nodes[id].data matches NodeData::Element { inlining_ignored, .. } && inlining_ignored,
        !skip_element(nodes[id].data->element, o.keep_style_tags, o.keep_link_tags),
    ensures
        ({
            let e = nodes[id].data->element;
            let is_html = e.name.ns@ == crate::serializer::html_ns();
            ser_node(nodes, id, st, o, false, raw) == tagged(
                nodes,
                id,
                e,
                None,
                st,
                o,
                is_html && crate::serializer::is_void_name(e.name.local@),
                is_html && crate::serializer::is_raw_text_name(e.name.local@),
            )
        }),
{
}

proof fn lemma_escape_attr_no_quote(s: Seq<char>)
    ensures
        forall|i: int| 0 <= i < escape_attr(s).len() ==> #[trigger] escape_attr(s)[i] != '"',
    decreases s.len(),
{
    if s.len() > 0 {
        lemma_escape_attr_no_quote(s.drop_last());
        let c = s.last();
        let tail = escape_attr_char(c);
        assert(forall|i: int| 0 <= i < tail.len() ==> #[trigger] tail[i] != '"') by {
            reveal_strlit("&amp;");
            reveal_strlit("&nbsp;");
            reveal_strlit("&quot;");
        }
        let prev = escape_attr(s.drop_last());
        assert forall|i: int| 0 <= i < escape_attr(s).len() implies #[trigger] escape_attr(s)[i] != '"' by {
            if i < prev.len() {
                assert(escape_attr(s)[i] == prev[i]);
            } else {
                assert(escape_attr(s)[i] == tail[i - prev.len()]);
            }
        }
    }
}

/// An escaped attribute value holds no `"`, so it cannot end the attribute early.
pub proof fn law_escaped_attribute_has_no_quote(s: Seq<char>)
    ensures
        !escape_attr(s).contains('"'),
{
    lemma_escape_attr_no_quote(s);
}

proof fn lemma_escape_text_no_angle(s: Seq<char>)
    ensures
        forall|i: int|
            0 <= i < escape_text(s).len() ==> #[trigger] escape_text(s)[i] != '<' && escape_text(s)[i]
                != '>',
    decreases s.len(),
{
    if s.len() > 0 {
        lemma_escape_text_no_angle(s.drop_last());
        let c = s.last();
        let tail = escape_text_char(c);
        assert(forall|i: int| 0 <= i < tail.len() ==> #[trigger] tail[i] != '<' && tail[i] != '>') by {
            reveal_strlit("&amp;");
            reveal_strlit("&nbsp;");
            reveal_strlit("&lt;");
            reveal_strlit("&gt;");
        }
        let prev = escape_text(s.drop_last());
        assert forall|i: int| 0 <= i < escape_text(s).len() implies #[trigger] escape_text(s)[i] != '<'
            && escape_text(s)[i] != '>' by {
            if i < prev.len() {
                assert(escape_text(s)[i] == prev[i]);
            } else {
                assert(escape_text(s)[i] == tail[i - prev.len()]);
            }
        }
    }
}

/// Escaped text holds no `<` or `>`, so it cannot open or close a tag.
pub proof fn law_escaped_text_has_no_angle_brackets(s: Seq<char>)
    ensures
        !escape_text(s).contains('<'),
        !escape_text(s).contains('>'),
{
    lemma_escape_text_no_angle(s);
}

/// The pieces joined with the separator.
pub open spec fn joined_with(pieces: Seq<Seq<char>>, c: char) -> Seq<char>
    decreases pieces.len(),
{
    if pieces.len() == 0 {
        seq![]
    } else if pieces.len() == 1 {
        pieces[0]
    } else {
        joined_with(pieces.drop_last(), c) + seq![c] + pieces.last()
    }
}

/// Splitting the selectors of a rule at `,` loses nothing: joining the pieces with `,` gives
/// the selectors back.
pub proof fn law_split_then_join(s: Seq<char>, c: char)
    ensures
        joined_with(split_on(s, c), c) == s,
    decreases s.len(),
{
    if s.len() > 0 {
        law_split_then_join(s.drop_last(), c);
        crate::inliner::lemma_split_on_len(s.drop_last(), c);
        let rest = split_on(s.drop_last(), c);
        if s.last() == c {
            assert(rest.push(seq![]).drop_last() =~= rest);
            assert(joined_with(rest.push(seq![]), c) =~= s);
        } else {
            let up = rest.update(rest.len() - 1, rest.last().push(s.last()));
            if rest.len() == 1 {
                assert(joined_with(rest, c) == rest[0]);
                assert(up[0] == rest[0].push(s.last()));
                assert(joined_with(up, c) == up[0]);
                assert(joined_with(up, c) =~= s);
            } else {
                assert(up.drop_last() =~= rest.drop_last());
                assert(joined_with(rest, c) == joined_with(rest.drop_last(), c) + seq![c] + rest.last());
                assert(up.last() == rest.last().push(s.last()));
                assert(joined_with(up, c) == joined_with(up.drop_last(), c) + seq![c] + up.last());
                assert(s =~= s.drop_last().push(s.last()));
                assert(joined_with(up, c) =~= s);
            }
        }
    }
}

/// Without tracking the pieces of CSS (`remove_inlined_selectors` off), inlining rewrites
/// and removes no `style` element: the document is written as it was built.
pub proof fn law_untracked_css_leaves_style_elements(
    nodes: Seq<Node>,
    rules: Seq<CssRule>,
    flags: Seq<Vec<bool>>,
    keep_style_tags: bool,
    after: Seq<Node>,
)
    requires
        cleaned(nodes, actions_for(rules, None, flags, keep_style_tags), after),
    ensures
        after == nodes,
{
    let states = choose|states: Seq<Seq<Node>>|
        #[trigger] steps_ok(nodes, actions_for(rules, None, flags, keep_style_tags), states)
            && states.last() == after;
    assert(states.len() == 1);
}

/// A tracked selector that matched nothing keeps the `style` elements in the output, since
/// its rule stays in them.
pub proof fn law_unmatched_selector_keeps_style_tags<R>(
    options: InlineOptions<R>,
    rules: Seq<CssRule>,
    chunks: Option<Vec<CssChunk>>,
    flags: Seq<Vec<bool>>,
    at_rules: String,
)
    requires
        has_unmatched(usages_for(rules, chunks, flags)),
    ensures
        output_options(options, rules, chunks, flags, at_rules).keep_style_tags,
{
}

proof fn lemma_count_set_monotone(a: Seq<bool>, b: Seq<bool>)
    requires
        a.len() == b.len(),
        forall|j: int| 0 <= j < a.len() && #[trigger] a[j] ==> b[j],
    ensures
        count_set(a) <= count_set(b),
        (exists|j: int| 0 <= j < a.len() && #[trigger] b[j] && !a[j]) ==> count_set(a) < count_set(b),
    decreases a.len(),
{
    if a.len() > 0 {
        let (a0, b0) = (a.drop_last(), b.drop_last());
        assert forall|j: int| 0 <= j < a0.len() && #[trigger] a0[j] implies b0[j] by {
            assert(a[j]);
        }
        lemma_count_set_monotone(a0, b0);
        if exists|j: int| 0 <= j < a.len() && #[trigger] b[j] && !a[j] {
            let j = choose|j: int| 0 <= j < a.len() && #[trigger] b[j] && !a[j];
            if j < a0.len() {
                assert(b0[j] && !a0[j]);
            }
        }
    }
}

/// Ranks follow specificity: a selector that is less specific than another gets a lower rank,
/// unless the other's rank is already the largest one.
pub proof fn law_ranks_follow_specificity(texts: Seq<Seq<char>>, a: int, b: int)
    requires
        0 <= a < texts.len(),
        0 <= b < texts.len(),
        selector_specificity(texts[a]) < selector_specificity(texts[b]),
    ensures
        ranks_of(specificity_table(texts))[a] < ranks_of(specificity_table(texts))[b]
            || ranks_of(specificity_table(texts))[b] == u32::MAX,
{
    let t = specificity_table(texts);
    let ra = t[a];
    let rb = t[b];
    assert forall|j: int| 0 <= j < ra.len() && #[trigger] ra[j] implies rb[j] by {}
    assert(rb[a] && !ra[a]);
    lemma_count_set_monotone(ra, rb);
}

/// Two sets of options with the same settings, whatever their resolvers.
pub open spec fn same_settings<R1, R2>(a: InlineOptions<R1>, b: InlineOptions<R2>) -> bool {
    &&& a.inline_style_tags == b.inline_style_tags
    &&& a.keep_style_tags == b.keep_style_tags
    &&& a.keep_link_tags == b.keep_link_tags
    &&& a.keep_at_rules == b.keep_at_rules
    &&& a.minify_css == b.minify_css
    &&& a.base_url == b.base_url
    &&& a.load_remote_stylesheets == b.load_remote_stylesheets
    &&& a.extra_css == b.extra_css
    &&& a.preallocate_node_capacity == b.preallocate_node_capacity
    &&& a.remove_inlined_selectors == b.remove_inlined_selectors
}

/// When stylesheets are not loaded, the resolver plays no part: what inlining an HTML text
/// gives is the same whatever resolver the options hold.
pub proof fn law_resolver_unused_without_loading<R1: StylesheetResolver, R2: StylesheetResolver>(
    o1: InlineOptions<R1>,
    o2: InlineOptions<R2>,
    html: Seq<char>,
    css: Option<&str>,
    out: Result<String, InlineError>,
)
    requires
        same_settings(o1, o2),
        !o1.load_remote_stylesheets,
    ensures
        inline_outcome(o1, html, css, out) == inline_outcome(o2, html, css, out),
{
    assert forall|
        parsed: ParsedDocument,
        fetched: Seq<Seq<char>>,
        raw: Seq<char>,
        chunks: Option<Vec<CssChunk>>,
        rules: Seq<CssRule>,
        at_rules: String,
        apps: Seq<Application>,
        flags: Seq<Vec<bool>>,
        nodes: Seq<Node>,
    | #[trigger] inlined_from(o1, html, css, parsed, fetched, raw, chunks, rules, at_rules, apps, flags, nodes, out)
        == inlined_from(o2, html, css, parsed, fetched, raw, chunks, rules, at_rules, apps, flags, nodes, out) by {
        assert(style_pieces(o1, parsed.document) == style_pieces(o2, parsed.document));
        assert(gathered_with(o1, parsed.document, css, fetched, raw) == gathered_with(o2, parsed.document, css, fetched, raw));
        assert(rules_to_inline(o1, raw) == rules_to_inline(o2, raw));
        assert(output_options(o1, rules, chunks, flags, at_rules) == output_options(o2, rules, chunks, flags, at_rules));
        assert(actions_for(rules, chunks, flags, o1.keep_style_tags) == actions_for(rules, chunks, flags, o2.keep_style_tags));
    }
    assert forall|parsed: ParsedDocument| #[trigger] resolver_failed(o1, html, css, parsed, out) == resolver_failed(
        o2,
        html,
        css,
        parsed,
        out,
    ) by {}
    if inline_outcome(o1, html, css, out) {
        if exists|parsed: ParsedDocument| #[trigger] resolver_failed(o1, html, css, parsed, out) {
            let parsed = choose|parsed: ParsedDocument| #[trigger] resolver_failed(o1, html, css, parsed, out);
            assert(resolver_failed(o2, html, css, parsed, out));
        } else {
            let (parsed, fetched, raw, chunks, rules, at_rules, apps, flags, nodes) = choose|
                parsed: ParsedDocument,
                fetched: Seq<Seq<char>>,
                raw: Seq<char>,
                chunks: Option<Vec<CssChunk>>,
                rules: Seq<CssRule>,
                at_rules: String,
                apps: Seq<Application>,
                flags: Seq<Vec<bool>>,
                nodes: Seq<Node>,
            | #[trigger] inlined_from(o1, html, css, parsed, fetched, raw, chunks, rules, at_rules, apps, flags, nodes, out);
            assert(inlined_from(o2, html, css, parsed, fetched, raw, chunks, rules, at_rules, apps, flags, nodes, out));
        }
    }
    if inline_outcome(o2, html, css, out) {
        if exists|parsed: ParsedDocument| #[trigger] resolver_failed(o2, html, css, parsed, out) {
            let parsed = choose|parsed: ParsedDocument| #[trigger] resolver_failed(o2, html, css, parsed, out);
            assert(resolver_failed(o1, html, css, parsed, out));
        } else {
            let (parsed, fetched, raw, chunks, rules, at_rules, apps, flags, nodes) = choose|
                parsed: ParsedDocument,
                fetched: Seq<Seq<char>>,
                raw: Seq<char>,
                chunks: Option<Vec<CssChunk>>,
                rules: Seq<CssRule>,
                at_rules: String,
                apps: Seq<Application>,
                flags: Seq<Vec<bool>>,
                nodes: Seq<Node>,
            | #[trigger] inlined_from(o2, html, css, parsed, fetched, raw, chunks, rules, at_rules, apps, flags, nodes, out);
            assert(inlined_from(o1, html, css, parsed, fetched, raw, chunks, rules, at_rules, apps, flags, nodes, out));
        }
    }
}

/// The elements whose text is written as it is: `style`, `script`, `xmp`, `iframe`,
/// `noembed`, `noframes`, `plaintext` and `noscript`.
pub open spec fn raw_text_element(l: Seq<char>) -> bool {
    ||| l == "style"@
    ||| l == "script"@
    ||| l == "xmp"@
    ||| l == "iframe"@
    ||| l == "noembed"@
    ||| l == "noframes"@
    ||| l == "plaintext"@
    ||| l == "noscript"@
}

/// The elements that have no end tag: `area`, `base`, `basefont`, `bgsound`, `br`, `col`,
/// `embed`, `frame`, `hr`, `img`, `input`, `keygen`, `link`, `meta`, `param`, `source`,
/// `track` and `wbr`.
pub open spec fn void_element(l: Seq<char>) -> bool {
    ||| l == "area"@
    ||| l == "base"@
    ||| l == "basefont"@
    ||| l == "bgsound"@
    ||| l == "br"@
    ||| l == "col"@
    ||| l == "embed"@
    ||| l == "frame"@
    ||| l == "hr"@
    ||| l == "img"@
    ||| l == "input"@
    ||| l == "keygen"@
    ||| l == "link"@
    ||| l == "meta"@
    ||| l == "param"@
    ||| l == "source"@
    ||| l == "track"@
    ||| l == "wbr"@
}

proof fn lemma_name_lengths()
    ensures
        "style"@.len() == 5,
        "script"@.len() == 6,
        "xmp"@.len() == 3,
        "iframe"@.len() == 6,
        "noembed"@.len() == 7,
        "noframes"@.len() == 8,
        "plaintext"@.len() == 9,
        "noscript"@.len() == 8,
        "head"@.len() == 4,
        "area"@.len() == 4,
        "base"@.len() == 4,
        "basefont"@.len() == 8,
        "bgsound"@.len() == 7,
        "br"@.len() == 2,
        "col"@.len() == 3,
        "embed"@.len() == 5,
        "frame"@.len() == 5,
        "hr"@.len() == 2,
        "img"@.len() == 3,
        "input"@.len() == 5,
        "keygen"@.len() == 6,
        "link"@.len() == 4,
        "meta"@.len() == 4,
        "param"@.len() == 5,
        "source"@.len() == 6,
        "track"@.len() == 5,
        "wbr"@.len() == 3,
{
    reveal_strlit("style");
    reveal_strlit("script");
    reveal_strlit("xmp");
    reveal_strlit("iframe");
    reveal_strlit("noembed");
    reveal_strlit("noframes");
    reveal_strlit("plaintext");
    reveal_strlit("noscript");
    reveal_strlit("head");
    reveal_strlit("area");
    reveal_strlit("base");
    reveal_strlit("basefont");
    reveal_strlit("bgsound");
    reveal_strlit("br");
    reveal_strlit("col");
    reveal_strlit("embed");
    reveal_strlit("frame");
    reveal_strlit("hr");
    reveal_strlit("img");
    reveal_strlit("input");
    reveal_strlit("keygen");
    reveal_strlit("link");
    reveal_strlit("meta");
    reveal_strlit("param");
    reveal_strlit("source");
    reveal_strlit("track");
    reveal_strlit("wbr");
}

/// A raw-text element name is neither `head` nor the name of a void element.
proof fn lemma_raw_not_void(l: Seq<char>)
    requires
        raw_text_element(l),
    ensures
        !is_void_name(l),
        l != "head"@,
{
    reveal(is_void_name);
    lemma_name_lengths();
    reveal_strlit("style");
    reveal_strlit("script");
    reveal_strlit("xmp");
    reveal_strlit("iframe");
    reveal_strlit("noembed");
    reveal_strlit("noframes");
    reveal_strlit("plaintext");
    reveal_strlit("noscript");
    reveal_strlit("embed");
    reveal_strlit("frame");
    reveal_strlit("input");
    reveal_strlit("param");
    reveal_strlit("track");
    reveal_strlit("col");
    reveal_strlit("img");
    reveal_strlit("wbr");
    reveal_strlit("keygen");
    reveal_strlit("source");
    reveal_strlit("bgsound");
    reveal_strlit("basefont");
    if l == "style"@ {
        assert(l[0] == 's');
    } else if l == "script"@ {
        assert(l[0] == 's' && l[1] == 'c');
        assert("source"@[1] == 'o');
    } else if l == "xmp"@ {
        assert(l[0] == 'x');
    } else if l == "iframe"@ {
        assert(l[0] == 'i' && l[1] == 'f');
    } else if l == "noembed"@ {
        assert(l[0] == 'n');
    } else if l == "noframes"@ {
        assert(l[0] == 'n');
    } else if l == "plaintext"@ {
    } else {
        assert(l[0] == 'n');
    }
}

/// The text inside a raw-text element (`script`, `style` and the others of
/// `raw_text_element`) is written as it is, with no escaping: an element whose only child is
/// a text node is written as its start tag, the text unchanged and its end tag.
pub proof fn law_raw_text_written_verbatim(
    nodes: Seq<Node>,
    id: int,
    c: int,
    st: Seq<Option<Seq<(Seq<char>, Seq<char>)>>>,
    o: SerializeOptions,
    raw: bool,
)
    requires
        0 <= id < c < nodes.len(),
        nodes[id].data matches NodeData::Element { element, .. } && element.name.ns@ == html_ns()
            && raw_text_element(element.name.local@),
        !skip_element(nodes[id].data->element, o.keep_style_tags, o.keep_link_tags),
        nodes[id].first_child matches Some(f) && f.0 == c,
        nodes[c].data is Text,
        nodes[c].next_sibling is None,
    ensures
        ({
            let e = nodes[id].data->element;
            let styles = if nodes[id].data->inlining_ignored || id >= st.len() {
                None
            } else {
                st[id]
            };
            ser_node(nodes, id, st, o, false, raw) == match start_tag(e, styles, o.minify_css) {
                Ok(t) => Ok(t + nodes[c].data->Text_text@ + "</"@ + e.name.local@ + ">"@),
                Err(x) => Err(x),
            }
        }),
{
    let e = nodes[id].data->element;
    lemma_raw_not_void(e.name.local@);
    assert(is_raw_text_name(e.name.local@)) by {
        reveal(is_raw_text_name);
    }
    assert(head_extra(e, o.at_rules) == Seq::<char>::empty());
    assert(ser_node(nodes, c, st, o, false, true) == Ok::<Seq<char>, crate::css::SpecSyntaxError>(
        nodes[c].data->Text_text@,
    ));
    assert(ser_chain(nodes, c, st, o, false, true) == Ok::<Seq<char>, crate::css::SpecSyntaxError>(
        nodes[c].data->Text_text@,
    ));
    assert(ser_kids(nodes, id, st, o, false, true) == Ok::<Seq<char>, crate::css::SpecSyntaxError>(
        nodes[c].data->Text_text@,
    ));
    let styles = if nodes[id].data->inlining_ignored || id >= st.len() {
        None
    } else {
        st[id]
    };
    assert(ser_element(nodes, id, e, nodes[id].data->inlining_ignored, st, o, false, raw) == tagged(
        nodes,
        id,
        e,
        styles,
        st,
        o,
        false,
        true,
    ));
    match start_tag(e, styles, o.minify_css) {
        Ok(t) => {
            assert(tagged(nodes, id, e, styles, st, o, false, true) == Ok::<Seq<char>, crate::css::SpecSyntaxError>(
                t + Seq::<char>::empty() + nodes[c].data->Text_text@ + ("</"@ + e.name.local@ + ">"@),
            ));
            assert(t + Seq::<char>::empty() + nodes[c].data->Text_text@ + ("</"@ + e.name.local@ + ">"@)
                =~= t + nodes[c].data->Text_text@ + "</"@ + e.name.local@ + ">"@);
        },
        Err(x) => {},
    }
}

/// A void element (`br`, `img` and the others of `void_element`) is written as its start
/// tag alone: with no children, there is no end tag.
pub proof fn law_void_elements_have_no_end_tag(
    nodes: Seq<Node>,
    id: int,
    st: Seq<Option<Seq<(Seq<char>, Seq<char>)>>>,
    o: SerializeOptions,
    raw: bool,
)
    requires
        0 <= id < nodes.len(),
        nodes[id].data matches NodeData::Element { element, .. } && element.name.ns@ == html_ns()
            && void_element(element.name.local@),
        !skip_element(nodes[id].data->element, o.keep_style_tags, o.keep_link_tags),
        nodes[id].first_child is None,
    ensures
        ({
            let e = nodes[id].data->element;
            let styles = if nodes[id].data->inlining_ignored || id >= st.len() {
                None
            } else {
                st[id]
            };
            ser_node(nodes, id, st, o, false, raw) == start_tag(e, styles, o.minify_css)
        }),
{
    let e = nodes[id].data->element;
    let l = e.name.local@;
    assert(is_void_name(l)) by {
        reveal(is_void_name);
    }
    assert(l != "head"@) by {
        lemma_name_lengths();
        reveal_strlit("head");
        reveal_strlit("area");
        reveal_strlit("base");
        reveal_strlit("link");
        reveal_strlit("meta");
        if l.len() == 4 {
            assert(l[0] != 'h');
        }
    }
    assert(head_extra(e, o.at_rules) == Seq::<char>::empty());
    let my_raw = is_raw_text_name(l);
    assert(ser_kids(nodes, id, st, o, true, my_raw) == Ok::<Seq<char>, crate::css::SpecSyntaxError>(seq![]));
    let styles = if nodes[id].data->inlining_ignored || id >= st.len() {
        None
    } else {
        st[id]
    };
    assert(ser_element(nodes, id, e, nodes[id].data->inlining_ignored, st, o, false, raw) == tagged(
        nodes,
        id,
        e,
        styles,
        st,
        o,
        true,
        my_raw,
    ));
    match start_tag(e, styles, o.minify_css) {
        Ok(t) => {
            assert(t + Seq::<char>::empty() + Seq::<char>::empty() + Seq::<char>::empty() =~= t);
        },
        Err(x) => {},
    }
}

/// The text of a rewritten rule's declarations holds every declaration, in order: the text
/// of two runs of declarations one after the other is the text of the first followed by the
/// text of the second, and one declaration gives its own text.
pub proof fn law_rewritten_declarations_all_written(
    ds: Seq<(Seq<char>, Seq<char>)>,
    es: Seq<(Seq<char>, Seq<char>)>,
)
    ensures
        decls_text(ds + es) == decls_text(ds) + decls_text(es),
        es.len() == 1 ==> decls_text(ds + es) == decls_text(ds) + decl_text(es[0]),
        decls_text(seq![]) == Seq::<char>::empty(),
    decreases es.len(),
{
    if es.len() == 0 {
        assert(ds + es =~= ds);
        assert(decls_text(ds) + decls_text(es) =~= decls_text(ds));
    } else {
        law_rewritten_declarations_all_written(ds, es.drop_last());
        assert((ds + es).drop_last() =~= ds + es.drop_last());
        assert((ds + es).last() == es.last());
        assert(decls_text(ds + es) =~= decls_text(ds) + decls_text(es));
        if es.len() == 1 {
            assert(es.drop_last() =~= Seq::<(Seq<char>, Seq<char>)>::empty());
            assert(decls_text(es) =~= decl_text(es[0]));
        }
    }
}

/// Pushing pieces after a text keeps the text in front of them.
proof fn lemma_pushed_all_after(raw: Seq<char>, pieces: Seq<Seq<char>>, newline: bool)
    ensures
        pushed_all(raw, pieces, newline) == raw + pushed_all(seq![], pieces, newline),
    decreases pieces.len(),
{
    if pieces.len() == 0 {
        assert(raw + Seq::<char>::empty() =~= raw);
    } else {
        lemma_pushed_all_after(raw, pieces.drop_last(), newline);
        let p = pieces.last();
        let rest = pushed_all(seq![], pieces.drop_last(), newline);
        if p.len() == 0 {
        } else if newline {
            assert(raw + rest + p + seq!['\n'] =~= raw + (rest + p + seq!['\n']));
        } else {
            assert(raw + rest + p =~= raw + (rest + p));
        }
    }
}

/// The gathered CSS is, in order, the texts of the `style` elements, then the retrieved
/// stylesheets, each non-empty one followed by a newline, then the extra CSS, then the
/// fragment's CSS; later CSS wins ties in the cascade.
pub proof fn law_css_gathered_in_order(
    styles: Seq<Seq<char>>,
    fetched: Seq<Seq<char>>,
    extra: Seq<char>,
    css: Seq<char>,
)
    ensures
        gathered(styles, fetched, extra, css) == pushed_all(seq![], styles, true) + pushed_all(
            seq![],
            fetched,
            true,
        ) + extra + css,
        pushed_all(seq![], styles.push(extra), true) == pushed_all(seq![], styles, true) + if extra.len() > 0 {
            extra + seq!['\n']
        } else {
            seq![]
        },
{
    let a = pushed_all(seq![], styles, true);
    lemma_pushed_all_after(a, fetched, true);
    let b = pushed_all(seq![], fetched, true);
    assert(crate::sources::buffer_push(a + b, extra, false) =~= a + b + extra);
    assert(crate::sources::buffer_push(a + b + extra, css, false) =~= a + b + extra + css);
    assert(styles.push(extra).drop_last() =~= styles);
    if extra.len() == 0 {
        assert(a + Seq::<char>::empty() =~= a);
    }
}

/// Any other element with no children is written as its start tag followed by its end tag.
pub proof fn law_other_elements_closed(
    nodes: Seq<Node>,
    id: int,
    st: Seq<Option<Seq<(Seq<char>, Seq<char>)>>>,
    o: SerializeOptions,
    raw: bool,
)
    requires
        0 <= id < nodes.len(),
        nodes[id].data matches NodeData::Element { element, .. } && (element.name.ns@ != html_ns()
            || (!void_element(element.name.local@) && element.name.local@ != "head"@)),
        !skip_element(nodes[id].data->element, o.keep_style_tags, o.keep_link_tags),
        nodes[id].first_child is None,
    ensures
        ({
            let e = nodes[id].data->element;
            let styles = if nodes[id].data->inlining_ignored || id >= st.len() {
                None
            } else {
                st[id]
            };
            ser_node(nodes, id, st, o, false, raw) == match start_tag(e, styles, o.minify_css) {
                Ok(t) => Ok(t + "</"@ + e.name.local@ + ">"@),
                Err(x) => Err(x),
            }
        }),
{
    let e = nodes[id].data->element;
    let l = e.name.local@;
    let is_html = e.name.ns@ == html_ns();
    assert(!(is_html && is_void_name(l))) by {
        reveal(is_void_name);
    }
    assert(head_extra(e, o.at_rules) == Seq::<char>::empty());
    let my_raw = is_html && is_raw_text_name(l);
    assert(ser_kids(nodes, id, st, o, false, my_raw) == Ok::<Seq<char>, crate::css::SpecSyntaxError>(seq![]));
    let styles = if nodes[id].data->inlining_ignored || id >= st.len() {
        None
    } else {
        st[id]
    };
    assert(ser_element(nodes, id, e, nodes[id].data->inlining_ignored, st, o, false, raw) == tagged(
        nodes,
        id,
        e,
        styles,
        st,
        o,
        false,
        my_raw,
    ));
    match start_tag(e, styles, o.minify_css) {
        Ok(t) => {
            assert(t + Seq::<char>::empty() + Seq::<char>::empty() + ("</"@ + l + ">"@) =~= t + "</"@ + l + ">"@);
        },
        Err(x) => {},
    }
}

/// The text inside any other element is escaped: an element whose only child is a text node
/// is written as its start tag, the escaped text and its end tag.
pub proof fn law_text_escaped_elsewhere(
    nodes: Seq<Node>,
    id: int,
    c: int,
    st: Seq<Option<Seq<(Seq<char>, Seq<char>)>>>,
    o: SerializeOptions,
    raw: bool,
)
    requires
        0 <= id < c < nodes.len(),
        nodes[id].data matches NodeData::Element { element, .. } && (element.name.ns@ != html_ns()
            || (!void_element(element.name.local@) && !raw_text_element(element.name.local@)
            && element.name.local@ != "head"@)),
        !skip_element(nodes[id].data->element, o.keep_style_tags, o.keep_link_tags),
        nodes[id].first_child matches Some(f) && f.0 == c,
        nodes[c].data is Text,
        nodes[c].next_sibling is None,
    ensures
        ({
            let e = nodes[id].data->element;
            let styles = if nodes[id].data->inlining_ignored || id >= st.len() {
                None
            } else {
                st[id]
            };
            ser_node(nodes, id, st, o, false, raw) == match start_tag(e, styles, o.minify_css) {
                Ok(t) => Ok(t + escape_text(nodes[c].data->Text_text@) + "</"@ + e.name.local@ + ">"@),
                Err(x) => Err(x),
            }
        }),
{
    let e = nodes[id].data->element;
    let l = e.name.local@;
    let is_html = e.name.ns@ == html_ns();
    assert(!(is_html && is_void_name(l))) by {
        reveal(is_void_name);
    }
    assert(!(is_html && is_raw_text_name(l))) by {
        reveal(is_raw_text_name);
    }
    assert(head_extra(e, o.at_rules) == Seq::<char>::empty());
    let text = nodes[c].data->Text_text@;
    assert(ser_node(nodes, c, st, o, false, false) == Ok::<Seq<char>, crate::css::SpecSyntaxError>(escape_text(text)));
    assert(ser_chain(nodes, c, st, o, false, false) == Ok::<Seq<char>, crate::css::SpecSyntaxError>(escape_text(text)));
    assert(ser_kids(nodes, id, st, o, false, false) == Ok::<Seq<char>, crate::css::SpecSyntaxError>(escape_text(text)));
    let styles = if nodes[id].data->inlining_ignored || id >= st.len() {
        None
    } else {
        st[id]
    };
    assert(ser_element(nodes, id, e, nodes[id].data->inlining_ignored, st, o, false, raw) == tagged(
        nodes,
        id,
        e,
        styles,
        st,
        o,
        false,
        false,
    ));
    match start_tag(e, styles, o.minify_css) {
        Ok(t) => {
            assert(t + Seq::<char>::empty() + escape_text(text) + ("</"@ + l + ">"@) =~= t + escape_text(text) + "</"@ + l + ">"@);
        },
        Err(x) => {},
    }
}

} // verus!
