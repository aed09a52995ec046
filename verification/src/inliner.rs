//! The inliner: its options and the steps from an HTML document to the inlined document.
use vstd::prelude::*;
use crate::cleanup::{any_unmatched, apply_cleanup, collect_usages, plan_cleanup, actions_view, chunk_action, cleaned, has_unmatched, rule_heads, usages_of, usages_view, SpecCleanup};
use crate::cascade::{cascade, sort_by_rank, Application, StyleEntry, apps_view, rules_view, element_style, opt_styled, sorted_by_rank};
use crate::declarations::{entries_view, Entry};
use crate::dom::{Node, NodeId};
use crate::error::{from_syntax_error, syntax_error_message, InlineError};
use crate::html::{compile_selectors, matches_at, selector_matches, selector_specificity, selectors_compile, specificity_below};
use crate::resolver::{DefaultStylesheetResolver, StylesheetResolver};
use crate::serializer::{ser_node, serialize_document, styles_view, SerializeOptions};
use crate::sources::{document_styles, document_stylesheets, sorted_unique, CssBuffer, CssChunk, CssOrigin, vecs_view};
use crate::stylesheet::{parse_stylesheet, stylesheet, SheetItem, SpecSheetItem};
use crate::text::{push_all, push_str, str_chars, string_push};
use crate::tree_builder::{built_from, context_of, parse_with_options, records_ok, ParsedDocument};
use crate::urls::{base_text, full_url, full_url_of};

verus! {

/// `s` split at each `c`, as `str::split` does: `n` occurrences give `n + 1` pieces.
pub open spec fn split_on(s: Seq<char>, c: char) -> Seq<Seq<char>>
    decreases s.len(),
{
    if s.len() == 0 {
        seq![seq![]]
    } else {
        let rest = split_on(s.drop_last(), c);
        if s.last() == c {
            rest.push(seq![])
        } else {
            rest.update(rest.len() - 1, rest.last().push(s.last()))
        }
    }
}

pub proof fn lemma_split_on_len(s: Seq<char>, c: char)
    ensures
        split_on(s, c).len() >= 1,
    decreases s.len(),
{
    if s.len() > 0 {
        lemma_split_on_len(s.drop_last(), c);
    }
}

/// The selectors of a rule, split at each `,`.
pub fn split_selectors(s: &Vec<char>) -> (r: Vec<Vec<char>>)
    ensures
        vecs_view(r@) == split_on(s@, ','),
{
    let mut out: Vec<Vec<char>> = Vec::new();
    let mut cur: Vec<char> = Vec::new();
    let mut i: usize = 0;
    assert(s@.subrange(0, 0) =~= Seq::<char>::empty());
    while i < s.len()
        invariant
            i <= s.len(),
            vecs_view(out@).push(cur@) == split_on(s@.subrange(0, i as int), ','),
        decreases s.len() - i,
    {
        let ghost prev = s@.subrange(0, i as int);
        let ghost now = s@.subrange(0, i + 1);
        proof {
            assert(now.drop_last() =~= prev);
            assert(now.last() == s@[i as int]);
            lemma_split_on_len(prev, ',');
        }
        if s[i] == ',' {
            let done = cur;
            let ghost before = vecs_view(out@);
            out.push(done);
            cur = Vec::new();
            assert(vecs_view(out@).push(cur@) =~= before.push(done@).push(Seq::<char>::empty()));
        } else {
            let ghost before = vecs_view(out@);
            let ghost old_cur = cur@;
            cur.push(s[i]);
            assert(vecs_view(out@).push(cur@) =~= before.push(old_cur).update(
                before.len() as int,
                old_cur.push(s@[i as int]),
            ));
        }
        i += 1;
    }
    assert(s@.subrange(0, s.len() as int) =~= s@);
    let ghost before = vecs_view(out@);
    out.push(cur);
    assert(vecs_view(out@) =~= before.push(cur@));
    out
}

/// A qualified rule with its selectors and its declarations.
pub struct CssRule {
    /// Where the selectors start in the stylesheet.
    pub start: usize,
    pub selectors: Vec<char>,
    pub declarations: Vec<Entry>,
}

/// The qualified rules among the items of a stylesheet, in order.
pub open spec fn rules_of(items: Seq<SpecSheetItem>) -> Seq<(int, Seq<char>, Seq<(Seq<char>, Seq<char>)>)>
    decreases items.len(),
{
    if items.len() == 0 {
        seq![]
    } else {
        rules_of(items.drop_last()) + match items.last() {
            SpecSheetItem::Rule(start, sel, decls) => seq![(start, sel, decls)],
            _ => seq![],
        }
    }
}

/// The at-rules among the items of a stylesheet, each followed by a space.
pub open spec fn at_rules_of(items: Seq<SpecSheetItem>) -> Seq<char>
    decreases items.len(),
{
    if items.len() == 0 {
        seq![]
    } else {
        at_rules_of(items.drop_last()) + match items.last() {
            SpecSheetItem::AtRule(text) => text + seq![' '],
            _ => seq![],
        }
    }
}

pub open spec fn css_rules_view(rules: Seq<CssRule>) -> Seq<(int, Seq<char>, Seq<(Seq<char>, Seq<char>)>)> {
    rules.map_values(|r: CssRule| (r.start as int, r.selectors@, entries_view(r.declarations@)))
}

pub open spec fn sheet_view(items: Seq<SheetItem>) -> Seq<SpecSheetItem> {
    items.map_values(|x: SheetItem| x@)
}

/// The declarations as character sequences.
fn to_entries(ds: &Vec<crate::css::Declaration>) -> (r: Vec<Entry>)
    ensures
        entries_view(r@) == ds@.map_values(|d: crate::css::Declaration| d@),
{
    let mut out: Vec<Entry> = Vec::new();
    let mut i: usize = 0;
    while i < ds.len()
        invariant
            i <= ds.len(),
            entries_view(out@) == ds@.map_values(|d: crate::css::Declaration| d@).subrange(0, i as int),
        decreases ds.len() - i,
    {
        let ghost before = entries_view(out@);
        out.push(Entry { name: str_chars(ds[i].name.as_str()), value: str_chars(ds[i].value.as_str()) });
        assert(entries_view(out@) =~= before.push(ds@[i as int]@));
        i += 1;
        assert(entries_view(out@) =~= ds@.map_values(|d: crate::css::Declaration| d@).subrange(0, i as int));
    }
    assert(ds@.map_values(|d: crate::css::Declaration| d@).subrange(0, ds.len() as int) =~= ds@.map_values(|d: crate::css::Declaration| d@));
    out
}

/// The qualified rules and the text of the at-rules of a stylesheet.
pub fn split_sheet(items: &Vec<SheetItem>) -> (r: (Vec<CssRule>, String))
    ensures
        css_rules_view(r.0@) == rules_of(sheet_view(items@)),
        r.1@ == at_rules_of(sheet_view(items@)),
{
    let ghost iv = sheet_view(items@);
    let mut rules: Vec<CssRule> = Vec::new();
    let mut at_rules = String::new();
    let mut i: usize = 0;
    assert(iv.subrange(0, 0) =~= Seq::<SpecSheetItem>::empty());
    while i < items.len()
        invariant
            i <= items.len(),
            iv == sheet_view(items@),
            css_rules_view(rules@) == rules_of(iv.subrange(0, i as int)),
            at_rules@ == at_rules_of(iv.subrange(0, i as int)),
        decreases items.len() - i,
    {
        proof {
            let cur = iv.subrange(0, i + 1);
            assert(cur.drop_last() =~= iv.subrange(0, i as int));
            assert(cur.last() == items@[i as int]@);
        }
        let ghost rv = css_rules_view(rules@);
        let ghost av = at_rules@;
        match &items[i] {
            SheetItem::Rule(rule) => {
                let selectors = str_chars(rule.selectors.as_str());
                let declarations = to_entries(&rule.declarations);
                rules.push(CssRule { start: rule.start, selectors, declarations });
                assert(css_rules_view(rules@) =~= rv + seq![(rule.start as int, rule.selectors@, rule.declarations@.map_values(|d: crate::css::Declaration| d@))]);
                assert(at_rules@ =~= av + Seq::<char>::empty());
            },
            SheetItem::AtRule(text) => {
                push_str(&mut at_rules, text.as_str());
                string_push(&mut at_rules, ' ');
                assert(css_rules_view(rules@) =~= rv + Seq::<(int, Seq<char>, Seq<(Seq<char>, Seq<char>)>)>::empty());
                assert(at_rules@ =~= av + (text@ + seq![' ']));
            },
            SheetItem::Invalid => {
                assert(css_rules_view(rules@) =~= rv + Seq::<(int, Seq<char>, Seq<(Seq<char>, Seq<char>)>)>::empty());
                assert(at_rules@ =~= av + Seq::<char>::empty());
            },
        }
        i += 1;
    }
    assert(iv.subrange(0, items.len() as int) =~= iv);
    (rules, at_rules)
}

/// How many of the flags are set.
pub open spec fn count_set(row: Seq<bool>) -> nat
    decreases row.len(),
{
    if row.len() == 0 {
        0
    } else {
        count_set(row.drop_last()) + if row.last() { 1nat } else { 0nat }
    }
}

/// The rank of each item: how many items are below it (`lower[i][j]` says whether item `j`
/// is below item `i`), at most `u32::MAX`.
pub open spec fn ranks_of(lower: Seq<Seq<bool>>) -> Seq<int> {
    lower.map_values(|row: Seq<bool>| if count_set(row) < u32::MAX { count_set(row) as int } else { u32::MAX as int })
}

/// Counts, for each item, the items below it.
pub fn count_ranks(lower: &Vec<Vec<bool>>) -> (r: Vec<u32>)
    ensures
        r@.map_values(|x: u32| x as int) == ranks_of(lower@.map_values(|row: Vec<bool>| row@)),
{
    let ghost lv = lower@.map_values(|row: Vec<bool>| row@);
    let mut ranks: Vec<u32> = Vec::new();
    let mut i: usize = 0;
    while i < lower.len()
        invariant
            i <= lower.len(),
            lv == lower@.map_values(|row: Vec<bool>| row@),
            ranks.len() == i,
            ranks@.map_values(|x: u32| x as int) == ranks_of(lv.subrange(0, i as int)),
        decreases lower.len() - i,
    {
        let row = &lower[i];
        let mut count: u32 = 0;
        let mut j: usize = 0;
        while j < row.len()
            invariant
                j <= row.len(),
                count as int == if count_set(row@.subrange(0, j as int)) < u32::MAX {
                    count_set(row@.subrange(0, j as int)) as int
                } else {
                    u32::MAX as int
                },
            decreases row.len() - j,
        {
            proof {
                let cur = row@.subrange(0, j + 1);
                assert(cur.drop_last() =~= row@.subrange(0, j as int));
            }
            if row[j] && count < u32::MAX {
                count += 1;
            }
            j += 1;
        }
        assert(row@.subrange(0, row.len() as int) =~= row@);
        let ghost before = ranks@;
        ranks.push(count);
        proof {
            assert(lv[i as int] == row@);
            let prev = ranks_of(lv.subrange(0, i as int));
            let next = ranks_of(lv.subrange(0, i + 1));
            assert(next.len() == i + 1);
            assert forall|k: int| 0 <= k < i implies next[k] == prev[k] by {
                assert(lv.subrange(0, i + 1)[k] == lv.subrange(0, i as int)[k]);
            }
            let now = ranks@.map_values(|x: u32| x as int);
            assert forall|k: int| 0 <= k < i implies now[k] == next[k] by {
                assert(ranks@[k] == before[k]);
                assert(before.map_values(|x: u32| x as int)[k] == prev[k]);
            }
            assert(now[i as int] == count as int);
            assert(next[i as int] == (if count_set(row@) < u32::MAX { count_set(row@) as int } else { u32::MAX as int }));
            assert(now =~= next);
        }
        i += 1;
    }
    assert(lv.subrange(0, lower.len() as int) =~= lv);
    ranks
}

/// For each selector, whether each selector is less specific than it.
pub open spec fn specificity_table(texts: Seq<Seq<char>>) -> Seq<Seq<bool>> {
    Seq::new(
        texts.len(),
        |i: int| Seq::new(texts.len(), |j: int| selector_specificity(texts[j]) < selector_specificity(texts[i])),
    )
}

/// For each selector, how many of the selectors are less specific (at most `u32::MAX`).
pub fn specificity_ranks(texts: &Vec<String>) -> (r: Vec<u32>)
    requires
        forall|k: int| 0 <= k < texts.len() ==> selectors_compile(#[trigger] texts@[k]@),
    ensures
        r.len() == texts.len(),
        r@.map_values(|x: u32| x as int) == ranks_of(specificity_table(crate::sources::strings_view(texts@))),
{
    let ghost tv = crate::sources::strings_view(texts@);
    let ghost table = specificity_table(tv);
    let mut lower: Vec<Vec<bool>> = Vec::new();
    let mut i: usize = 0;
    while i < texts.len()
        invariant
            i <= texts.len(),
            lower.len() == i,
            tv == crate::sources::strings_view(texts@),
            table == specificity_table(tv),
            forall|k: int| 0 <= k < texts.len() ==> selectors_compile(#[trigger] texts@[k]@),
            forall|k: int| 0 <= k < i ==> (#[trigger] lower@[k])@ == table[k],
        decreases texts.len() - i,
    {
        let mut row: Vec<bool> = Vec::new();
        let mut j: usize = 0;
        while j < texts.len()
            invariant
                j <= texts.len(),
                i < texts.len(),
                row.len() == j,
                tv == crate::sources::strings_view(texts@),
                forall|k: int| 0 <= k < texts.len() ==> selectors_compile(#[trigger] texts@[k]@),
                forall|k: int| 0 <= k < j ==> row@[k] == (selector_specificity(tv[k]) < selector_specificity(tv[i as int])),
            decreases texts.len() - j,
        {
            row.push(specificity_below(texts[j].as_str(), texts[i].as_str()));
            j += 1;
        }
        assert(row@ =~= table[i as int]);
        lower.push(row);
        i += 1;
    }
    let r = count_ranks(&lower);
    assert(lower@.map_values(|row: Vec<bool>| row@) =~= table);
    assert(r@.map_values(|x: u32| x as int).len() == r.len());
    assert(ranks_of(table).len() == table.len());
    r
}

/// The selectors of a rule's pieces `ps` that compile, each with the rule `rule`.
pub open spec fn compiled_in(rule: int, ps: Seq<Seq<char>>) -> Seq<(int, Seq<char>)>
    decreases ps.len(),
{
    if ps.len() == 0 {
        seq![]
    } else {
        compiled_in(rule, ps.drop_last()) + if selectors_compile(ps.last()) {
            seq![(rule, ps.last())]
        } else {
            seq![]
        }
    }
}

/// The selectors of the rules that compile, in stylesheet order, each with its rule.
pub open spec fn compiled_pieces(rules: Seq<CssRule>) -> Seq<(int, Seq<char>)>
    decreases rules.len(),
{
    if rules.len() == 0 {
        seq![]
    } else {
        compiled_pieces(rules.drop_last()) + compiled_in(rules.len() - 1, split_on(rules.last().selectors@, ','))
    }
}

/// The texts of the compiled selectors.
pub open spec fn piece_texts(ps: Seq<(int, Seq<char>)>) -> Seq<Seq<char>> {
    ps.map_values(|p: (int, Seq<char>)| p.1)
}

/// The rule and text of each compiled selector found so far.
pub open spec fn found_pieces(rule_of: Seq<usize>, texts: Seq<String>) -> Seq<(int, Seq<char>)> {
    Seq::new(rule_of.len(), |k: int| (rule_of[k] as int, texts[k]@))
}

/// Whether the selector list `text` matches each element of the document, in the order of
/// `document.elements`, as the selector engine decides on the parsed tree.
pub open spec fn matched_by(parsed: ParsedDocument, text: Seq<char>) -> Seq<bool> {
    Seq::new(
        parsed.parsed_elements.len() as nat,
        |e: int|
            selector_matches(
                parsed.tree.source(),
                parsed.tree.context(),
                parsed.parsed_elements@[e].path(),
                text,
                parsed.parsed_elements@[e].index(),
            ),
    )
}

/// Whether a selector of a rule compiles and matches an element of the document.
pub open spec fn piece_used(parsed: ParsedDocument, piece: Seq<char>) -> bool {
    selectors_compile(piece) && matched_by(parsed, piece).contains(true)
}

/// The selectors of the rules that compile, each with the rule it belongs to, the rank of its
/// specificity among them and the elements it matches, in stylesheet order; and for each
/// rule, whether each of its selectors compiles and matches an element.
pub fn match_rules(parsed: &ParsedDocument, rules: &Vec<CssRule>) -> (r: (Vec<Application>, Vec<Vec<bool>>))
    requires
        parsed.wf(),
    ensures
        r.0.len() == compiled_pieces(rules@).len(),
        forall|k: int|
            0 <= k < r.0.len() ==> (#[trigger] r.0@[k]).rule == compiled_pieces(rules@)[k].0
                && r.0@[k].rule < rules.len() && r.0@[k].matched.len() == parsed.parsed_elements.len(),
        forall|k: int|
            0 <= k < r.0.len() ==> (#[trigger] r.0@[k]).matched@ == matched_by(*parsed, compiled_pieces(rules@)[k].1),
        r.0@.map_values(|a: Application| a.rank as int) == ranks_of(
            specificity_table(piece_texts(compiled_pieces(rules@))),
        ),
        forall|j: int, k: int| 0 <= j < k < r.0.len() ==> #[trigger] r.0@[j].rule <= #[trigger] r.0@[k].rule,
        r.1.len() == rules.len(),
        forall|k: int| 0 <= k < rules.len() ==> (#[trigger] r.1@[k]).len() == split_on(rules@[k].selectors@, ',').len(),
        forall|k: int, p: int|
            0 <= k < rules.len() && 0 <= p < r.1@[k].len() ==> #[trigger] r.1@[k]@[p] == piece_used(
                *parsed,
                split_on(rules@[k].selectors@, ',')[p],
            ),
{
    let mut piece_matched: Vec<Vec<bool>> = Vec::new();
    let mut rule_of: Vec<usize> = Vec::new();
    let mut texts: Vec<String> = Vec::new();
    let mut matches: Vec<Vec<bool>> = Vec::new();
    let mut r: usize = 0;
    assert(rules@.subrange(0, 0) =~= Seq::<CssRule>::empty());
    assert(found_pieces(rule_of@, texts@) =~= compiled_pieces(rules@.subrange(0, 0)));
    while r < rules.len()
        invariant
            r <= rules.len(),
            piece_matched.len() == r,
            forall|k: int| 0 <= k < r ==> (#[trigger] piece_matched@[k]).len() == split_on(rules@[k].selectors@, ',').len(),
            rule_of.len() == texts.len() == matches.len(),
            found_pieces(rule_of@, texts@) == compiled_pieces(rules@.subrange(0, r as int)),
            forall|k: int| 0 <= k < texts.len() ==> selectors_compile(#[trigger] texts@[k]@),
            forall|k: int| 0 <= k < rule_of.len() ==> #[trigger] rule_of@[k] < r,
            forall|j: int, k: int| 0 <= j < k < rule_of.len() ==> #[trigger] rule_of@[j] <= #[trigger] rule_of@[k],
            forall|k: int| 0 <= k < matches.len() ==> (#[trigger] matches@[k]).len() == parsed.parsed_elements.len(),
            forall|k: int| 0 <= k < matches.len() ==> (#[trigger] matches@[k])@ == matched_by(*parsed, texts@[k]@),
            forall|k: int, p: int|
                0 <= k < r && 0 <= p < piece_matched@[k].len() ==> #[trigger] piece_matched@[k]@[p] == piece_used(
                    *parsed,
                    split_on(rules@[k].selectors@, ',')[p],
                ),
            parsed.wf(),
        decreases rules.len() - r,
    {
        let pieces = split_selectors(&rules[r].selectors);
        let ghost before = compiled_pieces(rules@.subrange(0, r as int));
        let mut flags: Vec<bool> = Vec::new();
        let mut p: usize = 0;
        assert(vecs_view(pieces@).subrange(0, 0) =~= Seq::<Seq<char>>::empty());
        assert(before + compiled_in(r as int, vecs_view(pieces@).subrange(0, 0)) =~= before);
        while p < pieces.len()
            invariant
                r < rules.len(),
                p <= pieces.len(),
                flags.len() == p,
                vecs_view(pieces@) == split_on(rules@[r as int].selectors@, ','),
                rule_of.len() == texts.len() == matches.len(),
                found_pieces(rule_of@, texts@) == before + compiled_in(r as int, vecs_view(pieces@).subrange(0, p as int)),
                forall|k: int| 0 <= k < texts.len() ==> selectors_compile(#[trigger] texts@[k]@),
                forall|k: int| 0 <= k < rule_of.len() ==> #[trigger] rule_of@[k] <= r,
                forall|j: int, k: int| 0 <= j < k < rule_of.len() ==> #[trigger] rule_of@[j] <= #[trigger] rule_of@[k],
                forall|k: int| 0 <= k < matches.len() ==> (#[trigger] matches@[k]).len() == parsed.parsed_elements.len(),
                forall|k: int| 0 <= k < matches.len() ==> (#[trigger] matches@[k])@ == matched_by(*parsed, texts@[k]@),
                forall|q: int| 0 <= q < p ==> #[trigger] flags@[q] == piece_used(*parsed, vecs_view(pieces@)[q]),
                parsed.wf(),
            decreases pieces.len() - p,
        {
            let mut text = String::new();
            push_all(&mut text, &pieces[p]);
            assert(text@ == vecs_view(pieces@)[p as int]);
            let ghost found0 = found_pieces(rule_of@, texts@);
            proof {
                let cur = vecs_view(pieces@).subrange(0, p + 1);
                assert(cur.drop_last() =~= vecs_view(pieces@).subrange(0, p as int));
                assert(cur.last() == text@);
            }
            let mut matched_any = false;
            match compile_selectors(text.as_str()) {
                Some(selectors) => {
                    let mut matched: Vec<bool> = Vec::new();
                    let mut e: usize = 0;
                    while e < parsed.parsed_elements.len()
                        invariant
                            e <= parsed.parsed_elements.len(),
                            matched@ == matched_by(*parsed, text@).take(e as int),
                            matched_any == matched@.contains(true),
                            selectors_compile(text@),
                            selectors.text() == text@,
                            parsed.wf(),
                        decreases parsed.parsed_elements.len() - e,
                    {
                        let m = matches_at(&parsed.parsed_elements[e], &selectors);
                        let ghost before = matched@;
                        if m {
                            matched_any = true;
                        }
                        matched.push(m);
                        proof {
                            assert(matched@ =~= matched_by(*parsed, text@).take(e + 1));
                            if m {
                                assert(matched@[e as int]);
                            } else if matched@.contains(true) {
                                let x = choose|x: int| 0 <= x < matched@.len() && matched@[x] == true;
                                assert(before[x]);
                            }
                        }
                        e += 1;
                    }
                    assert(matched@ =~= matched_by(*parsed, text@));
                    rule_of.push(r);
                    texts.push(text);
                    matches.push(matched);
                    assert(found_pieces(rule_of@, texts@) =~= found0.push((r as int, vecs_view(pieces@)[p as int])));
                },
                None => {},
            }
            proof {
                if !selectors_compile(text@) {
                    assert(!matched_any);
                }
            }
            flags.push(matched_any);
            p += 1;
        }
        proof {
            assert(split_on(rules@[r as int].selectors@, ',').len() == pieces.len());
            assert(vecs_view(pieces@).subrange(0, pieces.len() as int) =~= vecs_view(pieces@));
            let sub = rules@.subrange(0, r + 1);
            assert(sub.drop_last() =~= rules@.subrange(0, r as int));
            assert(sub.last() == rules@[r as int]);
        }
        piece_matched.push(flags);
        r += 1;
    }
    assert(rules@.subrange(0, rules.len() as int) =~= rules@);
    let ranks = specificity_ranks(&texts);
    proof {
        assert(crate::sources::strings_view(texts@) =~= piece_texts(compiled_pieces(rules@)));
    }
    let mut apps: Vec<Application> = Vec::new();
    let mut k: usize = 0;
    let n = matches.len();
    let mut rest = matches;
    // `rest` is consumed from the back; applications are built in order afterwards.
    let mut rev: Vec<Vec<bool>> = Vec::new();
    while rest.len() > 0
        invariant
            rest.len() + rev.len() == n,
            n == texts.len(),
            forall|j: int| 0 <= j < rest.len() ==> (#[trigger] rest@[j]).len() == parsed.parsed_elements.len(),
            forall|j: int| 0 <= j < rev.len() ==> (#[trigger] rev@[j]).len() == parsed.parsed_elements.len(),
            forall|j: int| 0 <= j < rest.len() ==> (#[trigger] rest@[j])@ == matched_by(*parsed, texts@[j]@),
            forall|j: int| 0 <= j < rev.len() ==> (#[trigger] rev@[j])@ == matched_by(*parsed, texts@[n - 1 - j]@),
        decreases rest.len(),
    {
        let m = rest.pop().unwrap();
        rev.push(m);
    }
    while k < n
        invariant
            k <= n,
            n == rule_of.len() == ranks.len(),
            rev.len() == n - k,
            apps.len() == k,
            forall|j: int| 0 <= j < rev.len() ==> (#[trigger] rev@[j]).len() == parsed.parsed_elements.len(),
            forall|j: int| 0 <= j < rule_of.len() ==> #[trigger] rule_of@[j] < rules.len(),
            forall|j: int|
                0 <= j < apps.len() ==> (#[trigger] apps@[j]).rule < rules.len() && apps@[j].matched.len()
                    == parsed.parsed_elements.len(),
            forall|j: int| 0 <= j < apps.len() ==> (#[trigger] apps@[j]).rule == rule_of@[j] && apps@[j].rank == ranks@[j],
            forall|i: int, j: int| 0 <= i < j < rule_of.len() ==> #[trigger] rule_of@[i] <= #[trigger] rule_of@[j],
            n == texts.len(),
            forall|j: int| 0 <= j < rev.len() ==> (#[trigger] rev@[j])@ == matched_by(*parsed, texts@[n - 1 - j]@),
            forall|j: int| 0 <= j < apps.len() ==> (#[trigger] apps@[j]).matched@ == matched_by(*parsed, texts@[j]@),
        decreases n - k,
    {
        let matched = rev.pop().unwrap();
        apps.push(Application { rule: rule_of[k], rank: ranks[k], matched });
        k += 1;
    }
    proof {
        assert(apps@.map_values(|a: Application| a.rank as int) =~= ranks@.map_values(|x: u32| x as int));
        assert forall|j: int| 0 <= j < apps.len() implies (#[trigger] apps@[j]).rule == compiled_pieces(rules@)[j].0
            && apps@[j].matched@ == matched_by(*parsed, compiled_pieces(rules@)[j].1) by {
            assert(found_pieces(rule_of@, texts@)[j] == compiled_pieces(rules@)[j]);
        }
    }
    (apps, piece_matched)
}

/// The styles of each node of the document, by node index: the entries of each element
/// ordered by rank.
pub open spec fn node_styles(
    len: nat,
    elements: Seq<NodeId>,
    st: Seq<Option<Seq<(Seq<char>, Seq<char>, int)>>>,
) -> Seq<Option<Seq<(Seq<char>, Seq<char>)>>>
    decreases elements.len(),
{
    if elements.len() == 0 {
        Seq::new(len, |i: int| None)
    } else {
        let prev = node_styles(len, elements.drop_last(), st);
        let k = elements.len() - 1;
        let id = elements.last().0 as int;
        if id < len && k < st.len() {
            prev.update(
                id,
                match st[k] {
                    Some(es) => Some(sorted_by_rank(es)),
                    None => None,
                },
            )
        } else {
            prev
        }
    }
}

pub proof fn lemma_node_styles_len(len: nat, elements: Seq<NodeId>, st: Seq<Option<Seq<(Seq<char>, Seq<char>, int)>>>)
    ensures
        node_styles(len, elements, st).len() == len,
    decreases elements.len(),
{
    if elements.len() > 0 {
        lemma_node_styles_len(len, elements.drop_last(), st);
    }
}

/// Places the styles of each element at its node, ordered by rank.
pub fn styles_by_node(len: usize, elements: &Vec<NodeId>, st: &Vec<Option<Vec<StyleEntry>>>) -> (r: Vec<
    Option<Vec<Entry>>,
>)
    ensures
        styles_view(r@) == node_styles(len as nat, elements@, st@.map_values(|o: Option<Vec<StyleEntry>>| opt_styled(o))),
{
    let ghost sv = st@.map_values(|o: Option<Vec<StyleEntry>>| opt_styled(o));
    let mut out: Vec<Option<Vec<Entry>>> = Vec::new();
    let mut i: usize = 0;
    while i < len
        invariant
            i <= len,
            out.len() == i,
            forall|k: int| 0 <= k < i ==> (#[trigger] out@[k]) is None,
        decreases len - i,
    {
        out.push(None);
        i += 1;
    }
    assert(styles_view(out@) =~= node_styles(len as nat, elements@.subrange(0, 0), sv));
    let mut k: usize = 0;
    while k < elements.len()
        invariant
            k <= elements.len(),
            out.len() == len,
            sv == st@.map_values(|o: Option<Vec<StyleEntry>>| opt_styled(o)),
            styles_view(out@) == node_styles(len as nat, elements@.subrange(0, k as int), sv),
        decreases elements.len() - k,
    {
        proof {
            let cur = elements@.subrange(0, k + 1);
            assert(cur.drop_last() =~= elements@.subrange(0, k as int));
            assert(cur.last() == elements@[k as int]);
            lemma_node_styles_len(len as nat, elements@.subrange(0, k as int), sv);
        }
        let id = elements[k].0;
        if id < len && k < st.len() {
            let ghost before = styles_view(out@);
            let value = match &st[k] {
                Some(es) => Some(sort_by_rank(es)),
                None => None,
            };
            out.set(id, value);
            assert(styles_view(out@) =~= before.update(id as int, match sv[k as int] {
                Some(es) => Some(sorted_by_rank(es)),
                None => None,
            }));
        }
        k += 1;
    }
    assert(elements@.subrange(0, elements.len() as int) =~= elements@);
    out
}

} // verus!

verus! {

/// Configuration options for the CSS inlining process.
#[derive(Debug)]
pub struct InlineOptions<R = DefaultStylesheetResolver> {
    /// Whether to inline CSS from "style" tags.
    pub inline_style_tags: bool,
    /// Keep "style" tags after inlining.
    pub keep_style_tags: bool,
    /// Keep "link" tags after inlining.
    pub keep_link_tags: bool,
    /// Keep "at-rules" after inlining.
    pub keep_at_rules: bool,
    /// Remove trailing semicolons and spaces between properties and values.
    pub minify_css: bool,
    /// Used for loading external stylesheets via relative URLs.
    pub base_url: Option<url::Url>,
    /// Whether remote stylesheets should be loaded or not.
    pub load_remote_stylesheets: bool,
    /// Additional CSS to inline.
    pub extra_css: Option<String>,
    /// Pre-allocate capacity for HTML nodes during parsing.
    pub preallocate_node_capacity: usize,
    /// A way to resolve stylesheets from various sources.
    pub resolver: R,
    /// Remove selectors that were successfully inlined from inline `<style>` blocks.
    pub remove_inlined_selectors: bool,
}

/// The default options: `style` elements are inlined and removed, `link` elements are
/// removed, linked stylesheets are loaded, and room for 32 nodes is reserved.
pub open spec fn default_options() -> InlineOptions<DefaultStylesheetResolver> {
    InlineOptions {
        inline_style_tags: true,
        keep_style_tags: false,
        keep_link_tags: false,
        keep_at_rules: false,
        minify_css: false,
        base_url: None,
        load_remote_stylesheets: true,
        extra_css: None,
        preallocate_node_capacity: 32,
        resolver: DefaultStylesheetResolver,
        remove_inlined_selectors: false,
    }
}

impl Default for InlineOptions<DefaultStylesheetResolver> {
    fn default() -> (r: Self)
        ensures
            r == default_options(),
            r.inline_style_tags,
            !r.keep_style_tags,
            !r.keep_link_tags,
            !r.keep_at_rules,
            !r.minify_css,
            r.base_url is None,
            r.load_remote_stylesheets,
            r.extra_css is None,
            r.preallocate_node_capacity == 32,
            !r.remove_inlined_selectors,
    {
        InlineOptions {
            inline_style_tags: true,
            keep_style_tags: false,
            keep_link_tags: false,
            keep_at_rules: false,
            minify_css: false,
            base_url: None,
            load_remote_stylesheets: true,
            extra_css: None,
            preallocate_node_capacity: 32,
            resolver: DefaultStylesheetResolver,
            remove_inlined_selectors: false,
        }
    }
}

impl<R: StylesheetResolver> InlineOptions<R> {
    /// Override whether "style" tags should be inlined.
    pub fn inline_style_tags(self, inline_style_tags: bool) -> (r: Self)
        ensures
            r == (InlineOptions { inline_style_tags, ..self }),
    {
        InlineOptions { inline_style_tags, ..self }
    }

    /// Override whether "style" tags should be kept after processing.
    pub fn keep_style_tags(self, keep_style_tags: bool) -> (r: Self)
        ensures
            r == (InlineOptions { keep_style_tags, ..self }),
    {
        InlineOptions { keep_style_tags, ..self }
    }

    /// Override whether "link" tags should be kept after processing.
    pub fn keep_link_tags(self, keep_link_tags: bool) -> (r: Self)
        ensures
            r == (InlineOptions { keep_link_tags, ..self }),
    {
        InlineOptions { keep_link_tags, ..self }
    }

    /// Override whether "at-rules" should be kept after processing.
    pub fn keep_at_rules(self, keep_at_rules: bool) -> (r: Self)
        ensures
            r == (InlineOptions { keep_at_rules, ..self }),
    {
        InlineOptions { keep_at_rules, ..self }
    }

    /// Override whether trailing semicolons and spaces between properties and values should
    /// be removed.
    pub fn minify_css(self, minify_css: bool) -> (r: Self)
        ensures
            r == (InlineOptions { minify_css, ..self }),
    {
        InlineOptions { minify_css, ..self }
    }

    /// Set base URL that will be used for loading external stylesheets via relative URLs.
    pub fn base_url(self, base_url: Option<url::Url>) -> (r: Self)
        ensures
            r == (InlineOptions { base_url, ..self }),
    {
        InlineOptions { base_url, ..self }
    }

    /// Override whether remote stylesheets should be loaded.
    pub fn load_remote_stylesheets(self, load_remote_stylesheets: bool) -> (r: Self)
        ensures
            r == (InlineOptions { load_remote_stylesheets, ..self }),
    {
        InlineOptions { load_remote_stylesheets, ..self }
    }

    /// Set additional CSS to inline.
    pub fn extra_css(self, extra_css: Option<String>) -> (r: Self)
        ensures
            r == (InlineOptions { extra_css, ..self }),
    {
        InlineOptions { extra_css, ..self }
    }

    /// Set the initial node capacity for HTML tree.
    pub fn preallocate_node_capacity(self, preallocate_node_capacity: usize) -> (r: Self)
        ensures
            r == (InlineOptions { preallocate_node_capacity, ..self }),
    {
        InlineOptions { preallocate_node_capacity, ..self }
    }

    /// Remove selectors that were successfully inlined from inline `<style>` blocks.
    pub fn remove_inlined_selectors(self, remove_inlined_selectors: bool) -> (r: Self)
        ensures
            r == (InlineOptions { remove_inlined_selectors, ..self }),
    {
        InlineOptions { remove_inlined_selectors, ..self }
    }

    /// Set the way to resolve stylesheets from various sources.
    pub fn resolver<S: StylesheetResolver>(self, resolver: S) -> (r: InlineOptions<S>)
        ensures
            r.inline_style_tags == self.inline_style_tags,
            r.keep_style_tags == self.keep_style_tags,
            r.keep_link_tags == self.keep_link_tags,
            r.keep_at_rules == self.keep_at_rules,
            r.minify_css == self.minify_css,
            r.base_url == self.base_url,
            r.load_remote_stylesheets == self.load_remote_stylesheets,
            r.extra_css == self.extra_css,
            r.preallocate_node_capacity == self.preallocate_node_capacity,
            r.resolver == resolver,
            r.remove_inlined_selectors == self.remove_inlined_selectors,
    {
        InlineOptions {
            inline_style_tags: self.inline_style_tags,
            keep_style_tags: self.keep_style_tags,
            keep_link_tags: self.keep_link_tags,
            keep_at_rules: self.keep_at_rules,
            minify_css: self.minify_css,
            base_url: self.base_url,
            load_remote_stylesheets: self.load_remote_stylesheets,
            extra_css: self.extra_css,
            preallocate_node_capacity: self.preallocate_node_capacity,
            resolver,
            remove_inlined_selectors: self.remove_inlined_selectors,
        }
    }

    /// Create a new `CSSInliner` instance from these options.
    pub fn build(self) -> (r: CSSInliner<R>)
        ensures
            r.options == self,
    {
        CSSInliner { options: self }
    }
}

/// Pieces added to the buffer one after the other.
pub open spec fn pushed_all(raw: Seq<char>, pieces: Seq<Seq<char>>, newline: bool) -> Seq<char>
    decreases pieces.len(),
{
    if pieces.len() == 0 {
        raw
    } else {
        crate::sources::buffer_push(pushed_all(raw, pieces.drop_last(), newline), pieces.last(), newline)
    }
}

pub open spec fn opt_text(o: Option<String>) -> Seq<char> {
    match o {
        Some(s) => s@,
        None => seq![],
    }
}

/// The CSS to parse: the `style` texts when they are to be read, each followed by a newline,
/// the retrieved stylesheets, each followed by a newline, then the extra CSS and the CSS given
/// with a fragment; empty pieces are left out.
pub open spec fn gathered(
    styles: Seq<Seq<char>>,
    fetched: Seq<Seq<char>>,
    extra: Seq<char>,
    css: Seq<char>,
) -> Seq<char> {
    crate::sources::buffer_push(
        crate::sources::buffer_push(pushed_all(pushed_all(seq![], styles, true), fetched, true), extra, false),
        css,
        false,
    )
}

/// The pieces are valid ranges of a text of length `len`, and those from `style` elements
/// name nodes of a document with `n` nodes.
pub open spec fn chunks_ok(chunks: Option<Vec<CssChunk>>, len: int, n: int) -> bool {
    chunks matches Some(c) ==> forall|k: int|
        0 <= k < c.len() ==> (#[trigger] c@[k]).start <= c@[k].end <= len && (c@[k].origin matches CssOrigin::StyleNode(id) ==> 1 <= id.0 < n)
}

/// The texts of the document's `style` elements when they are read: when they are inlined or
/// their at-rules are kept.
pub open spec fn style_pieces<R>(options: InlineOptions<R>, doc: crate::dom::Document) -> Seq<Seq<char>> {
    if options.inline_style_tags || options.keep_at_rules {
        crate::sources::style_texts(doc.nodes@, doc.styles@)
    } else {
        seq![]
    }
}

/// Adds the texts of `style` elements to the buffer, each followed by a newline.
fn push_style_texts(buffer: &mut CssBuffer, pieces: &Vec<(NodeId, String)>, n: usize)
    requires
        chunks_ok(old(buffer).chunks, old(buffer).raw.len() as int, n as int),
        forall|k: int| 0 <= k < pieces.len() ==> 1 <= (#[trigger] pieces@[k]).0.0 < n,
    ensures
        final(buffer).raw@ == pushed_all(old(buffer).raw@, crate::sources::pair_texts(pieces@), true),
        chunks_ok(final(buffer).chunks, final(buffer).raw.len() as int, n as int),
        final(buffer).chunks is Some == old(buffer).chunks is Some,
{
    let ghost pv = crate::sources::pair_texts(pieces@);
    let mut i: usize = 0;
    assert(pv.subrange(0, 0) =~= Seq::<Seq<char>>::empty());
    while i < pieces.len()
        invariant
            i <= pieces.len(),
            pv == crate::sources::pair_texts(pieces@),
            buffer.raw@ == pushed_all(old(buffer).raw@, pv.subrange(0, i as int), true),
            chunks_ok(buffer.chunks, buffer.raw.len() as int, n as int),
            buffer.chunks is Some == old(buffer).chunks is Some,
            forall|k: int| 0 <= k < pieces.len() ==> 1 <= (#[trigger] pieces@[k]).0.0 < n,
        decreases pieces.len() - i,
    {
        proof {
            let cur = pv.subrange(0, i + 1);
            assert(cur.drop_last() =~= pv.subrange(0, i as int));
            assert(cur.last() == pieces@[i as int].1@);
        }
        assert(1 <= pieces@[i as int].0.0 < n);
        buffer.push(Some(CssOrigin::StyleNode(pieces[i].0)), pieces[i].1.as_str(), true);
        i += 1;
    }
    assert(pv.subrange(0, pieces.len() as int) =~= pv);
}

/// Adds retrieved stylesheets to the buffer, each followed by a newline.
fn push_stylesheets(buffer: &mut CssBuffer, texts: &Vec<String>, n: usize)
    requires
        chunks_ok(old(buffer).chunks, old(buffer).raw.len() as int, n as int),
    ensures
        final(buffer).raw@ == pushed_all(old(buffer).raw@, crate::sources::strings_view(texts@), true),
        chunks_ok(final(buffer).chunks, final(buffer).raw.len() as int, n as int),
        final(buffer).chunks is Some == old(buffer).chunks is Some,
{
    let ghost tv = crate::sources::strings_view(texts@);
    let mut i: usize = 0;
    assert(tv.subrange(0, 0) =~= Seq::<Seq<char>>::empty());
    while i < texts.len()
        invariant
            i <= texts.len(),
            tv == crate::sources::strings_view(texts@),
            buffer.raw@ == pushed_all(old(buffer).raw@, tv.subrange(0, i as int), true),
            chunks_ok(buffer.chunks, buffer.raw.len() as int, n as int),
            buffer.chunks is Some == old(buffer).chunks is Some,
        decreases texts.len() - i,
    {
        proof {
            let cur = tv.subrange(0, i + 1);
            assert(cur.drop_last() =~= tv.subrange(0, i as int));
            assert(cur.last() == texts@[i as int]@);
        }
        buffer.push(Some(CssOrigin::LinkedStylesheet), texts[i].as_str(), true);
        i += 1;
    }
    assert(tv.subrange(0, texts.len() as int) =~= tv);
}

/// The text of an optional string.
pub open spec fn opt_view(o: Option<String>) -> Option<Seq<char>> {
    match o {
        Some(s) => Some(s@),
        None => None,
    }
}

/// The locations of the stylesheets that the document links to: its `href`s sorted, each
/// once, made full against the base URL's text `base`.
pub fn stylesheet_locations(doc: &crate::dom::Document, base: &Option<String>) -> (r: Vec<String>)
    requires
        doc.wf(),
    ensures
        exists|locs: Seq<Seq<char>>|
            #[trigger] crate::sources::strictly_sorted(locs) && (forall|x: Seq<char>|
                #[trigger] locs.contains(x) <==> crate::sources::hrefs(doc.nodes@, doc.linked_stylesheets@).contains(x))
                && crate::sources::strings_view(r@) == locs.map_values(|l: Seq<char>| full_url_of(opt_view(*base), l)),
{
    let links = document_stylesheets(doc);
    let locations = sorted_unique(&links);
    let ghost locs = vecs_view(locations@);
    proof {
        assert(crate::sources::strings_view(links@) =~= links@.map_values(|s: String| s@));
    }
    let mut out: Vec<String> = Vec::new();
    let mut i: usize = 0;
    while i < locations.len()
        invariant
            i <= locations.len(),
            locs == vecs_view(locations@),
            crate::sources::strings_view(out@) == locs.subrange(0, i as int).map_values(
                |l: Seq<char>| full_url_of(opt_view(*base), l),
            ),
        decreases locations.len() - i,
    {
        let mut href = String::new();
        push_all(&mut href, &locations[i]);
        assert(href@ == locs[i as int]);
        let url = match base {
            Some(b) => full_url(Some(b.as_str()), href.as_str()),
            None => full_url(None, href.as_str()),
        };
        assert(url@ == full_url_of(opt_view(*base), locs[i as int]));
        let ghost before = crate::sources::strings_view(out@);
        out.push(url);
        proof {
            let f = |l: Seq<char>| full_url_of(opt_view(*base), l);
            assert(crate::sources::strings_view(out@) =~= before.push(url@));
            assert(locs.subrange(0, i + 1).map_values(f) =~= locs.subrange(0, i as int).map_values(f).push(
                f(locs[i as int]),
            ));
        }
        i += 1;
    }
    assert(locs.subrange(0, locations.len() as int) =~= locs);
    out
}

/// What retrieving goes on with once the resolver has answered for one more location: the
/// texts retrieved so far followed by the new one, or the resolver's error as it is, which
/// ends retrieving.
pub fn record_retrieved(fetched: Vec<String>, answer: Result<String, InlineError>) -> (r: Result<
    Vec<String>,
    InlineError,
>)
    ensures
        match answer {
            Ok(text) => r matches Ok(v) && v@ == fetched@.push(text),
            Err(e) => r == Err::<Vec<String>, InlineError>(e),
        },
{
    match answer {
        Ok(text) => {
            let mut fetched = fetched;
            fetched.push(text);
            Ok(fetched)
        },
        Err(e) => Err(e),
    }
}

/// Retrieves the stylesheet at each location, in order, with the resolver, stopping at the
/// first error, which is returned as the resolver gave it (`record_retrieved`). On success
/// there is one text per location, in the order of the locations.
pub fn fetch_stylesheets<R: StylesheetResolver>(resolver: &R, locations: &Vec<String>) -> (r: Result<
    Vec<String>,
    InlineError,
>)
    ensures
        r matches Ok(v) ==> v.len() == locations.len(),
        r matches Ok(v) ==> forall|i: int|
            0 <= i < v.len() ==> resolver.gives(locations@[i]@, #[trigger] v@[i]@),
        r is Err ==> locations.len() > 0,
{
    let mut fetched: Vec<String> = Vec::new();
    let mut i: usize = 0;
    while i < locations.len()
        invariant
            i <= locations.len(),
            fetched.len() == i,
            forall|j: int| 0 <= j < i ==> resolver.gives(locations@[j]@, #[trigger] fetched@[j]@),
        decreases locations.len() - i,
    {
        let answer = resolver.retrieve(locations[i].as_str());
        match record_retrieved(fetched, answer) {
            Ok(v) => {
                fetched = v;
            },
            Err(e) => {
                return Err(e);
            },
        }
        i += 1;
    }
    Ok(fetched)
}

/// The CSS to inline from the document's `style` elements (when they are read), the
/// retrieved stylesheets `fetched`, the extra CSS and the fragment's CSS, with its pieces when
/// they are to be tracked.
pub fn assemble_css<R>(
    doc: &crate::dom::Document,
    options: &InlineOptions<R>,
    fetched: &Vec<String>,
    css: Option<&str>,
    track: bool,
) -> (r: (Vec<char>, Option<Vec<CssChunk>>))
    requires
        doc.wf(),
    ensures
        chunks_ok(r.1, r.0.len() as int, doc.nodes.len() as int),
        r.1 is Some == track,
        r.0@ == gathered(
            style_pieces(*options, *doc),
            crate::sources::strings_view(fetched@),
            opt_text(options.extra_css),
            fragment_css(css),
        ),
{
    let n = doc.nodes.len();
    let mut buffer = CssBuffer::new(track);
    assert(buffer.raw@ =~= Seq::<char>::empty());
    let styles = if options.inline_style_tags || options.keep_at_rules {
        document_styles(doc)
    } else {
        Vec::new()
    };
    push_style_texts(&mut buffer, &styles, n);
    push_stylesheets(&mut buffer, fetched, n);
    match &options.extra_css {
        Some(extra) => buffer.push(Some(CssOrigin::ExtraCss), extra.as_str(), false),
        None => {},
    }
    match css {
        Some(c) => buffer.push(Some(CssOrigin::FragmentCss), c, false),
        None => {},
    }
    proof {
        assert(crate::sources::pair_texts(styles@) == style_pieces(*options, *doc)) by {
            if !(options.inline_style_tags || options.keep_at_rules) {
                assert(crate::sources::pair_texts(styles@) =~= Seq::<Seq<char>>::empty());
            }
        }
    }
    buffer.into_parts()
}

/// Each text of `fetched` is one that the resolver gives for the location at the same place
/// of `locs`, made full against the base URL's text `base`.
pub open spec fn fetched_from<R: StylesheetResolver>(
    resolver: R,
    base: Option<Seq<char>>,
    locs: Seq<Seq<char>>,
    fetched: Seq<Seq<char>>,
) -> bool {
    &&& fetched.len() == locs.len()
    &&& forall|i: int| 0 <= i < fetched.len() ==> resolver.gives(full_url_of(base, locs[i]), #[trigger] fetched[i])
}

/// One text per location of the stylesheets that the document links to (their `href`s,
/// each once, in order), each given by the resolver for its location.
pub open spec fn one_per_location<R: StylesheetResolver>(
    resolver: R,
    doc: crate::dom::Document,
    fetched: Seq<Seq<char>>,
) -> bool {
    exists|locs: Seq<Seq<char>>|
        #[trigger] crate::sources::strictly_sorted(locs) && (forall|x: Seq<char>|
            #[trigger] locs.contains(x) <==> crate::sources::hrefs(doc.nodes@, doc.linked_stylesheets@).contains(x))
            && fetched.len() == locs.len() && exists|base: Option<Seq<char>>| #[trigger] fetched_from(resolver, base, locs, fetched)
}

/// The CSS `raw` is gathered from the document `doc` with the stylesheets `fetched`: none
/// when stylesheets are not loaded, otherwise one per location.
pub open spec fn gathered_with<R: StylesheetResolver>(
    options: InlineOptions<R>,
    doc: crate::dom::Document,
    css: Option<&str>,
    fetched: Seq<Seq<char>>,
    raw: Seq<char>,
) -> bool {
    &&& raw == gathered(style_pieces(options, doc), fetched, opt_text(options.extra_css), fragment_css(css))
    &&& options.load_remote_stylesheets ==> one_per_location(options.resolver, doc, fetched)
    &&& !options.load_remote_stylesheets ==> fetched == Seq::<Seq<char>>::empty()
}

/// Gathers the CSS to inline, with its pieces when they are to be tracked. When stylesheets
/// are loaded, the resolver retrieves those at the document's locations
/// (`stylesheet_locations`), each once and in order, and the CSS holds the texts it returned,
/// one per location; an error of the resolver stops the gathering. When nothing is loaded or
/// nothing is linked, gathering succeeds.
pub fn gather_css<R: StylesheetResolver>(
    doc: &crate::dom::Document,
    options: &InlineOptions<R>,
    css: Option<&str>,
    track: bool,
) -> (r: Result<(Vec<char>, Option<Vec<CssChunk>>), InlineError>)
    requires
        doc.wf(),
    ensures
        r matches Ok((raw, chunks)) ==> chunks_ok(chunks, raw.len() as int, doc.nodes.len() as int)
            && (chunks is Some == track),
        (!options.load_remote_stylesheets || crate::sources::hrefs(doc.nodes@, doc.linked_stylesheets@).len()
            == 0) ==> (r matches Ok((raw, _)) && raw@ == gathered(
            style_pieces(*options, *doc),
            seq![],
            opt_text(options.extra_css),
            fragment_css(css),
        )),
        r is Err ==> options.load_remote_stylesheets && crate::sources::hrefs(doc.nodes@, doc.linked_stylesheets@).len()
            > 0,
        r matches Ok((raw, _)) ==> exists|fetched: Seq<Seq<char>>|
            #[trigger] gathered_with(*options, *doc, css, fetched, raw@),
{
    let fetched = if options.load_remote_stylesheets {
        let base = base_text(&options.base_url);
        let locations = stylesheet_locations(doc, &base);
        proof {
            let locs = choose|locs: Seq<Seq<char>>|
                #[trigger] crate::sources::strictly_sorted(locs) && (forall|x: Seq<char>|
                    #[trigger] locs.contains(x) <==> crate::sources::hrefs(doc.nodes@, doc.linked_stylesheets@).contains(x))
                    && crate::sources::strings_view(locations@) == locs.map_values(|l: Seq<char>| full_url_of(opt_view(base), l));
            assert(crate::sources::strings_view(locations@).len() == locations.len());
            if locations.len() > 0 {
                assert(locs.contains(locs[0]));
                assert(crate::sources::hrefs(doc.nodes@, doc.linked_stylesheets@).contains(locs[0]));
            }
            if crate::sources::hrefs(doc.nodes@, doc.linked_stylesheets@).len() == 0 {
                if locs.len() > 0 {
                    assert(locs.contains(locs[0]));
                }
            }
        }
        match fetch_stylesheets(&options.resolver, &locations) {
            Ok(v) => {
                proof {
                    let locs = choose|locs: Seq<Seq<char>>|
                        #[trigger] crate::sources::strictly_sorted(locs) && (forall|x: Seq<char>|
                            #[trigger] locs.contains(x) <==> crate::sources::hrefs(doc.nodes@, doc.linked_stylesheets@).contains(x))
                            && crate::sources::strings_view(locations@) == locs.map_values(|l: Seq<char>| full_url_of(opt_view(base), l));
                    assert(crate::sources::strings_view(locations@).len() == locations.len());
                    let fv = crate::sources::strings_view(v@);
                    assert(fv.len() == v.len());
                    assert forall|i: int| 0 <= i < fv.len() implies options.resolver.gives(
                        full_url_of(opt_view(base), locs[i]),
                        #[trigger] fv[i],
                    ) by {
                        assert(locations@[i]@ == crate::sources::strings_view(locations@)[i]);
                        assert(options.resolver.gives(locations@[i]@, v@[i]@));
                    }
                    assert(fetched_from(options.resolver, opt_view(base), locs, fv));
                    assert(one_per_location(options.resolver, *doc, fv));
                }
                v
            },
            Err(e) => {
                return Err(e);
            },
        }
    } else {
        Vec::new()
    };
    proof {
        if fetched.len() == 0 {
            assert(crate::sources::strings_view(fetched@) =~= Seq::<Seq<char>>::empty());
        }
    }
    let r = assemble_css(doc, options, &fetched, css, track);
    assert(gathered_with(*options, *doc, css, crate::sources::strings_view(fetched@), r.0@));
    Ok(r)
}

/// The declarations of each rule, in order.
pub open spec fn rule_declarations(rules: Seq<CssRule>) -> Seq<Seq<(Seq<char>, Seq<char>)>> {
    rules.map_values(|r: CssRule| entries_view(r.declarations@))
}

/// The declarations of the rules, taken out of them.
fn take_declarations(rules: Vec<CssRule>) -> (r: Vec<Vec<Entry>>)
    ensures
        rules_view(r@) == rule_declarations(rules@),
{
    let ghost all = rules@;
    let ghost n = rules.len() as int;
    let mut rest = rules;
    let mut rev: Vec<Vec<Entry>> = Vec::new();
    while rest.len() > 0
        invariant
            rest@ == all.subrange(0, rest.len() as int),
            rev.len() + rest.len() == n,
            n == all.len(),
            forall|k: int| 0 <= k < rev.len() ==> (#[trigger] rev@[k]) == all[n - 1 - k].declarations,
        decreases rest.len(),
    {
        let rule = rest.pop().unwrap();
        rev.push(rule.declarations);
    }
    let mut out: Vec<Vec<Entry>> = Vec::new();
    while rev.len() > 0
        invariant
            out.len() + rev.len() == n,
            n == all.len(),
            forall|k: int| 0 <= k < rev.len() ==> (#[trigger] rev@[k]) == all[n - 1 - k].declarations,
            forall|k: int| 0 <= k < out.len() ==> (#[trigger] out@[k]) == all[k].declarations,
        decreases rev.len(),
    {
        let d = rev.pop().unwrap();
        out.push(d);
    }
    assert(rules_view(out@) =~= rule_declarations(all));
    out
}

/// The action for each piece, or none when there are no usages or no pieces.
pub open spec fn planned_actions(
    us: Seq<(int, int, Seq<char>, bool)>,
    chunks: Seq<CssChunk>,
    decls: Seq<Seq<(Seq<char>, Seq<char>)>>,
    keep_style_tags: bool,
) -> Seq<SpecCleanup> {
    if us.len() == 0 || chunks.len() == 0 {
        seq![]
    } else {
        Seq::new(chunks.len(), |i: int| chunk_action(us, i, chunks[i], decls, keep_style_tags))
    }
}

/// The document written back with the style that the rules give each of its `n` matched
/// elements.
pub open spec fn inlined_text(
    nodes: Seq<Node>,
    elements: Seq<NodeId>,
    n: nat,
    apps: Seq<(int, int, Seq<bool>)>,
    decls: Seq<Seq<(Seq<char>, Seq<char>)>>,
    o: SerializeOptions,
) -> Result<Seq<char>, crate::css::SpecSyntaxError> {
    ser_node(
        nodes,
        1,
        node_styles(nodes.len(), elements, Seq::new(n, |e: int| element_style(apps, decls, e))),
        o,
        false,
        false,
    )
}

/// The usages of the selectors, when the pieces are tracked.
pub open spec fn usages_for(
    rules: Seq<CssRule>,
    chunks: Option<Vec<CssChunk>>,
    flags: Seq<Vec<bool>>,
) -> Seq<(int, int, Seq<char>, bool)> {
    match chunks {
        Some(c) => usages_of(rule_heads(rules), c@, flags.map_values(|f: Vec<bool>| f@)),
        None => seq![],
    }
}

/// The actions on `style` elements, when the pieces are tracked.
pub open spec fn actions_for(
    rules: Seq<CssRule>,
    chunks: Option<Vec<CssChunk>>,
    flags: Seq<Vec<bool>>,
    keep_style_tags: bool,
) -> Seq<SpecCleanup> {
    match chunks {
        Some(c) => planned_actions(usages_for(rules, chunks, flags), c@, rule_declarations(rules), keep_style_tags),
        None => seq![],
    }
}

/// How the inlined document is written.
pub open spec fn output_options<R>(
    options: InlineOptions<R>,
    rules: Seq<CssRule>,
    chunks: Option<Vec<CssChunk>>,
    flags: Seq<Vec<bool>>,
    at_rules: String,
) -> SerializeOptions {
    SerializeOptions {
        keep_style_tags: options.keep_style_tags || has_unmatched(usages_for(rules, chunks, flags)),
        keep_link_tags: options.keep_link_tags,
        minify_css: options.minify_css,
        at_rules: if options.keep_at_rules {
            Some(at_rules)
        } else {
            None
        },
    }
}

/// The last steps of inlining, once the rules are read and matched: each matched element
/// gets the declarations that win for it (`apps` says which rules match which elements, in
/// the order they apply), the `style` elements whose selectors were all inlined are rewritten
/// or removed when the pieces of CSS are tracked, and the document is written back. Style
/// tags stay when a tracked selector matched nothing. The only error is a syntax error in a
/// `style` attribute.
pub fn inline_document<R>(
    options: &InlineOptions<R>,
    parsed: ParsedDocument,
    rules: Vec<CssRule>,
    at_rules: String,
    apps: &Vec<Application>,
    piece_matched: &Vec<Vec<bool>>,
    chunks: Option<Vec<CssChunk>>,
) -> (r: Result<String, InlineError>)
    requires
        parsed.wf(),
    ensures
        exists|nodes: Seq<Node>|
            #[trigger] cleaned(
                parsed.document.nodes@,
                actions_for(rules@, chunks, piece_matched@, options.keep_style_tags),
                nodes,
            ) && match (
                r,
                inlined_text(
                    nodes,
                    parsed.document.elements@,
                    parsed.parsed_elements.len() as nat,
                    apps_view(apps@),
                    rule_declarations(rules@),
                    output_options(*options, rules@, chunks, piece_matched@, at_rules),
                ),
            ) {
                (Ok(s), Ok(t)) => s@ == t,
                (Err(e), Err(x)) => e matches InlineError::ParseError(m) && m@ == syntax_error_message(x),
                _ => false,
            },
{
    let mut parsed = parsed;
    let ghost nodes0 = parsed.document.nodes@;
    let ghost rules0 = rules@;
    let usages = match &chunks {
        Some(c) => collect_usages(&rules, c, piece_matched),
        None => Vec::new(),
    };
    assert(usages_view(usages@) == usages_for(rules0, chunks, piece_matched@)) by {
        if chunks is None {
            assert(usages_view(usages@) =~= Seq::<(int, int, Seq<char>, bool)>::empty());
        }
    }
    let declarations = take_declarations(rules);
    let st = cascade(parsed.parsed_elements.len(), apps, &declarations);
    let keep_style_tags = options.keep_style_tags || any_unmatched(&usages);
    let actions = match &chunks {
        Some(c) => plan_cleanup(&usages, c, &declarations, options.keep_style_tags),
        None => Vec::new(),
    };
    assert(actions_view(actions@) =~= actions_for(rules0, chunks, piece_matched@, options.keep_style_tags)) by {
        assert(declarations@.map_values(|d: Vec<Entry>| entries_view(d@)) == rules_view(declarations@));
    }
    apply_cleanup(&mut parsed, &actions);
    let by_node = styles_by_node(parsed.document.nodes.len(), &parsed.document.elements, &st);
    proof {
        assert(st@.map_values(|o: Option<Vec<StyleEntry>>| opt_styled(o)) =~= Seq::new(
            parsed.parsed_elements.len() as nat,
            |e: int| element_style(apps_view(apps@), rule_declarations(rules0), e),
        ));
    }
    let o = SerializeOptions {
        keep_style_tags,
        keep_link_tags: options.keep_link_tags,
        minify_css: options.minify_css,
        at_rules: if options.keep_at_rules {
            Some(at_rules)
        } else {
            None
        },
    };
    let mut out = String::new();
    let written = serialize_document(&mut out, &parsed.document, &by_node, &o);
    assert(cleaned(nodes0, actions_for(rules0, chunks, piece_matched@, options.keep_style_tags), parsed.document.nodes@));
    match written {
        Ok(()) => Ok(out),
        Err(e) => Err(from_syntax_error(&e)),
    }
}

/// The items of the gathered CSS; a text too long to be held in memory gives none.
pub open spec fn sheet_of(raw: Seq<char>) -> Seq<SpecSheetItem> {
    if raw.len() < usize::MAX - 4 {
        stylesheet(raw)
    } else {
        seq![]
    }
}

/// The rules to inline: those of the gathered CSS, or none when at-rules are kept and `style`
/// elements are not inlined.
pub open spec fn rules_to_inline<R>(options: InlineOptions<R>, raw: Seq<char>) -> Seq<
    (int, Seq<char>, Seq<(Seq<char>, Seq<char>)>),
> {
    if options.keep_at_rules && !options.inline_style_tags {
        seq![]
    } else {
        rules_of(sheet_of(raw))
    }
}

/// The CSS given with a fragment, as text.
pub open spec fn fragment_css(css: Option<&str>) -> Seq<char> {
    match css {
        Some(c) => c@,
        None => seq![],
    }
}

/// The document `parsed` is the one built from `html`, as a fragment when CSS is given with
/// it.
pub open spec fn parsed_from(html: Seq<char>, css: Option<&str>, parsed: ParsedDocument) -> bool {
    &&& parsed.wf()
    &&& records_ok(parsed.document)
    &&& parsed.tree.source() == html
    &&& parsed.tree.context() == context_of(css is Some)
    &&& built_from(parsed, css is Some)
}

/// `out` is what inlining gives for `html`: `parsed` is the document built from it; the CSS
/// `raw` was gathered (from its `style` elements, the retrieved stylesheets `fetched`, the
/// extra CSS and the fragment's CSS), with pieces `chunks` when they are tracked; its rules
/// were matched against the elements (`apps`: one application per compiled selector, in
/// order, ranked by specificity, with the elements it matches; `flags`: whether each selector
/// of each rule compiles and matches an element); `nodes` is the document after the `style`
/// elements were rewritten; and `out` is the document written back, or the syntax error of a
/// `style` attribute.
pub open spec fn inlined_from<R: StylesheetResolver>(
    options: InlineOptions<R>,
    html: Seq<char>,
    css: Option<&str>,
    parsed: ParsedDocument,
    fetched: Seq<Seq<char>>,
    raw: Seq<char>,
    chunks: Option<Vec<CssChunk>>,
    rules: Seq<CssRule>,
    at_rules: String,
    apps: Seq<Application>,
    flags: Seq<Vec<bool>>,
    nodes: Seq<Node>,
    out: Result<String, InlineError>,
) -> bool {
    &&& parsed_from(html, css, parsed)
    &&& gathered_with(options, parsed.document, css, fetched, raw)
    &&& (chunks is Some == options.remove_inlined_selectors)
    &&& css_rules_view(rules) == rules_to_inline(options, raw)
    &&& apps.len() == compiled_pieces(rules).len()
    &&& forall|k: int| 0 <= k < apps.len() ==> (#[trigger] apps[k]).rule == compiled_pieces(rules)[k].0
    &&& forall|k: int| 0 <= k < apps.len() ==> (#[trigger] apps[k]).matched@ == matched_by(parsed, compiled_pieces(rules)[k].1)
    &&& apps.map_values(|a: Application| a.rank as int) == ranks_of(specificity_table(piece_texts(compiled_pieces(rules))))
    &&& flags.len() == rules.len()
    &&& forall|k: int| 0 <= k < rules.len() ==> (#[trigger] flags[k]).len() == split_on(rules[k].selectors@, ',').len()
    &&& forall|k: int, p: int|
        0 <= k < rules.len() && 0 <= p < flags[k].len() ==> #[trigger] flags[k]@[p] == piece_used(
            parsed,
            split_on(rules[k].selectors@, ',')[p],
        )
    &&& at_rules@ == at_rules_of(sheet_of(raw))
    &&& cleaned(parsed.document.nodes@, actions_for(rules, chunks, flags, options.keep_style_tags), nodes)
    &&& match (
        out,
        inlined_text(
            nodes,
            parsed.document.elements@,
            parsed.parsed_elements.len() as nat,
            apps_view(apps),
            rule_declarations(rules),
            output_options(options, rules, chunks, flags, at_rules),
        ),
    ) {
        (Ok(s), Ok(t)) => s@ == t,
        (Err(e), Err(x)) => e matches InlineError::ParseError(m) && m@ == syntax_error_message(x),
        _ => false,
    }
}

/// What inlining `html` gives: the result of the steps above on the document built from it
/// and on the texts the resolver returned, or an error of the resolver when the document
/// links a stylesheet and stylesheets are loaded.
pub open spec fn inline_outcome<R: StylesheetResolver>(
    options: InlineOptions<R>,
    html: Seq<char>,
    css: Option<&str>,
    out: Result<String, InlineError>,
) -> bool {
    ||| exists|
        parsed: ParsedDocument,
        fetched: Seq<Seq<char>>,
        raw: Seq<char>,
        chunks: Option<Vec<CssChunk>>,
        rules: Seq<CssRule>,
        at_rules: String,
        apps: Seq<Application>,
        flags: Seq<Vec<bool>>,
        nodes: Seq<Node>,
    | #[trigger] inlined_from(options, html, css, parsed, fetched, raw, chunks, rules, at_rules, apps, flags, nodes, out)
    ||| exists|parsed: ParsedDocument| #[trigger] resolver_failed(options, html, css, parsed, out)
}

/// `out` is an error of the resolver, asked for a stylesheet that the document built from
/// `html` links to; no other step fails before that call.
pub open spec fn resolver_failed<R: StylesheetResolver>(
    options: InlineOptions<R>,
    html: Seq<char>,
    css: Option<&str>,
    parsed: ParsedDocument,
    out: Result<String, InlineError>,
) -> bool {
    &&& parsed_from(html, css, parsed)
    &&& options.load_remote_stylesheets
    &&& crate::sources::hrefs(parsed.document.nodes@, parsed.document.linked_stylesheets@).len() > 0
    &&& out is Err
}

/// Customizable CSS inliner.
#[derive(Debug)]
pub struct CSSInliner<R = DefaultStylesheetResolver> {
    pub options: InlineOptions<R>,
}

impl CSSInliner<DefaultStylesheetResolver> {
    /// The default options, which can then be adjusted and built into an inliner.
    pub fn options() -> (r: InlineOptions<DefaultStylesheetResolver>)
        ensures
            r == default_options(),
            r.inline_style_tags,
            !r.keep_style_tags,
            !r.keep_link_tags,
            !r.keep_at_rules,
            !r.minify_css,
            r.base_url is None,
            r.load_remote_stylesheets,
            r.extra_css is None,
            r.preallocate_node_capacity == 32,
            !r.remove_inlined_selectors,
    {
        InlineOptions::default()
    }
}

impl Default for CSSInliner<DefaultStylesheetResolver> {
    fn default() -> (r: Self)
        ensures
            r.options == default_options(),
            r.options.inline_style_tags,
            !r.options.keep_style_tags,
            !r.options.keep_link_tags,
            !r.options.keep_at_rules,
            !r.options.minify_css,
            r.options.base_url is None,
            r.options.load_remote_stylesheets,
            r.options.extra_css is None,
            r.options.preallocate_node_capacity == 32,
            !r.options.remove_inlined_selectors,
    {
        CSSInliner { options: InlineOptions::default() }
    }
}

impl<R: StylesheetResolver> CSSInliner<R> {
    /// Create a new `CSSInliner` instance with given options.
    pub fn new(options: InlineOptions<R>) -> (r: Self)
        ensures
            r.options == options,
    {
        CSSInliner { options }
    }

    /// Inline CSS styles from `style` tags, linked stylesheets and extra CSS to matching
    /// elements of the HTML document and return it as a string.
    /// Without loading stylesheets, the only error is a syntax error in a `style` attribute.
    pub fn inline(&self, html: &str) -> (r: Result<String, InlineError>)
        ensures
            match r {
                Err(e) => self.options.load_remote_stylesheets || e is ParseError,
                Ok(_) => true,
            },
            inline_outcome(self.options, html@, None, r),
    {
        self.inline_impl(html, None)
    }

    /// Inline CSS and append the resulting document, UTF-8 encoded, to `target`.
    pub fn inline_to(&self, html: &str, target: &mut Vec<u8>) -> (r: Result<(), InlineError>)
        ensures
            r is Err ==> final(target)@ == old(target)@,
            r is Ok ==> exists|s: String|
                #[trigger] inline_outcome(self.options, html@, None, Ok::<String, InlineError>(s))
                    && final(target)@ == old(target)@ + vstd::utf8::encode_utf8(s@),
            match r {
                Err(e) => (self.options.load_remote_stylesheets || e is ParseError) && inline_outcome(
                    self.options,
                    html@,
                    None,
                    Err::<String, InlineError>(e),
                ),
                Ok(_) => true,
            },
    {
        match self.inline_impl(html, None) {
            Ok(s) => {
                write_utf8(target, &s);
                Ok(())
            },
            Err(e) => Err(e),
        }
    }

    /// Inline CSS into an HTML fragment.
    pub fn inline_fragment(&self, html: &str, css: &str) -> (r: Result<String, InlineError>)
        ensures
            match r {
                Err(e) => self.options.load_remote_stylesheets || e is ParseError,
                Ok(_) => true,
            },
            inline_outcome(self.options, html@, Some(css), r),
    {
        self.inline_impl(html, Some(css))
    }

    /// Inline CSS into an HTML fragment and append the result, UTF-8 encoded, to `target`.
    pub fn inline_fragment_to(&self, html: &str, css: &str, target: &mut Vec<u8>) -> (r: Result<
        (),
        InlineError,
    >)
        ensures
            r is Err ==> final(target)@ == old(target)@,
            r is Ok ==> exists|s: String|
                #[trigger] inline_outcome(self.options, html@, Some(css), Ok::<String, InlineError>(s))
                    && final(target)@ == old(target)@ + vstd::utf8::encode_utf8(s@),
            match r {
                Err(e) => (self.options.load_remote_stylesheets || e is ParseError) && inline_outcome(
                    self.options,
                    html@,
                    Some(css),
                    Err::<String, InlineError>(e),
                ),
                Ok(_) => true,
            },
    {
        match self.inline_impl(html, Some(css)) {
            Ok(s) => {
                write_utf8(target, &s);
                Ok(())
            },
            Err(e) => Err(e),
        }
    }

    /// Parses the document (a fragment when `css` is given), gathers and parses the CSS,
    /// applies its rules to the elements they match and writes the document back.
    fn inline_impl(&self, html: &str, css: Option<&str>) -> (r: Result<String, InlineError>)
        ensures
            match r {
                Err(e) => self.options.load_remote_stylesheets || e is ParseError,
                Ok(_) => true,
            },
            inline_outcome(self.options, html@, css, r),
    {
        let options = &self.options;
        let parsed = parse_with_options(html, options.preallocate_node_capacity, css.is_some());
        let (chars, chunks) = match gather_css(&parsed.document, options, css, options.remove_inlined_selectors) {
            Ok(parts) => parts,
            Err(e) => {
                let r: Result<String, InlineError> = Err(e);
                assert(resolver_failed(self.options, html@, css, parsed, r));
                return r;
            },
        };
        let ghost fetched = choose|fetched: Seq<Seq<char>>|
            #[trigger] gathered_with(*options, parsed.document, css, fetched, chars@);
        // A text of this length cannot be held in memory.
        let items = if chars.len() < usize::MAX - 4 {
            parse_stylesheet(&chars)
        } else {
            Vec::new()
        };
        let (all_rules, at_rules) = split_sheet(&items);
        let rules = if options.keep_at_rules && !options.inline_style_tags {
            Vec::new()
        } else {
            all_rules
        };
        let (apps, piece_matched) = match_rules(&parsed, &rules);
        let ghost p0 = parsed;
        let ghost rules0 = rules@;
        let ghost at0 = at_rules;
        let ghost chunks0 = chunks;
        proof {
            if chars.len() < usize::MAX - 4 {
                assert(sheet_view(items@) == sheet_of(chars@));
            } else {
                assert(sheet_view(items@) =~= sheet_of(chars@));
            }
            if options.keep_at_rules && !options.inline_style_tags {
                assert(css_rules_view(rules0) =~= rules_to_inline(*options, chars@));
            }
        }
        let r = inline_document(options, parsed, rules, at_rules, &apps, &piece_matched, chunks);
        proof {
            let nodes = choose|nodes: Seq<Node>|
                #[trigger] cleaned(
                    p0.document.nodes@,
                    actions_for(rules0, chunks0, piece_matched@, options.keep_style_tags),
                    nodes,
                ) && match (
                    r,
                    inlined_text(
                        nodes,
                        p0.document.elements@,
                        p0.parsed_elements.len() as nat,
                        apps_view(apps@),
                        rule_declarations(rules0),
                        output_options(*options, rules0, chunks0, piece_matched@, at0),
                    ),
                ) {
                    (Ok(s), Ok(t)) => s@ == t,
                    (Err(e), Err(x)) => e matches InlineError::ParseError(m) && m@ == syntax_error_message(x),
                    _ => false,
                };
            assert(inlined_from(*options, html@, css, p0, fetched, chars@, chunks0, rules0, at0, apps@, piece_matched@, nodes, r));
        }
        r
    }
}

/// Appends the UTF-8 encoding of `s` to `target`.
fn write_utf8(target: &mut Vec<u8>, s: &String)
    ensures
        final(target)@ == old(target)@ + vstd::utf8::encode_utf8(s@),
{
    target.extend_from_slice(s.as_str().as_bytes());
}

} // verus!
