//! Stylesheets: the rules collected from `style` tags, linked stylesheets and extra CSS.
//!
//! A stylesheet is read as a list of top-level items. A qualified rule is a prelude (the
//! selectors) and a `{}` block whose well-formed declarations are kept. An at-rule (`@media`,
//! `@font-face`, ...) cannot be inlined; its text is kept so that it can be written back into
//! the document when asked for.
use vstd::prelude::*;
use crate::css::{
    at_rule_end, at_rule_end_exec, decl_step, decl_step_exec, declaration_list, ident_starts,
    ident_starts_exec, lemma_at_rule_end, lemma_decl_step, lemma_scan_bounds, lemma_skip_decl_sep,
    lemma_skip_top, parse_decls, scan, scan_exec, skip_decl_sep_exec, skip_top, skip_top_exec,
    DeclItem, Declaration, Mode, SpecDeclItem,
};
use crate::text::push_range;

verus! {

/// A qualified rule: its selectors and the declarations of its block.
#[derive(Debug)]
pub struct Rule {
    /// Where the selectors start in the stylesheet.
    pub start: usize,
    pub selectors: String,
    pub declarations: Vec<Declaration>,
}

/// One top-level item of a stylesheet.
#[derive(Debug)]
pub enum SheetItem {
    Rule(Rule),
    AtRule(String),
    Invalid,
}

pub enum SpecSheetItem {
    Rule(int, Seq<char>, Seq<(Seq<char>, Seq<char>)>),
    AtRule(Seq<char>),
    Invalid,
}

impl View for SheetItem {
    type V = SpecSheetItem;

    open spec fn view(&self) -> SpecSheetItem {
        match self {
            SheetItem::Rule(r) => SpecSheetItem::Rule(
                r.start as int,
                r.selectors@,
                r.declarations@.map_values(|d: Declaration| d@),
            ),
            SheetItem::AtRule(t) => SpecSheetItem::AtRule(t@),
            SheetItem::Invalid => SpecSheetItem::Invalid,
        }
    }
}

/// The well-formed declarations among the items of a declaration list, in order.
pub open spec fn decls_ok(items: Seq<SpecDeclItem>) -> Seq<(Seq<char>, Seq<char>)>
    decreases items.len(),
{
    if items.len() == 0 {
        seq![]
    } else {
        let rest = decls_ok(items.drop_first());
        match items[0] {
            SpecDeclItem::Decl(n, v) => seq![(n, v)] + rest,
            SpecDeclItem::Error(_) => rest,
        }
    }
}

/// The position after the `{}` block whose `{` is at `p`; the end of the text when the block
/// is not closed.
pub open spec fn block_end(s: Seq<char>, p: int) -> int {
    let q = scan(s, p + 1, Mode::Normal, seq!['}'], ';', '{', true);
    if q > s.len() { s.len() as int } else { q }
}

/// Where the content of the block whose `{` is at `p` ends.
pub open spec fn block_inner_end(s: Seq<char>, p: int) -> int {
    let q = scan(s, p + 1, Mode::Normal, seq!['}'], ';', '{', true);
    if q > s.len() { s.len() as int } else { q - 1 }
}

pub proof fn lemma_block(s: Seq<char>, p: int)
    requires
        0 <= p < s.len(),
    ensures
        p < block_end(s, p) <= s.len(),
        p + 1 <= block_inner_end(s, p) <= block_end(s, p),
{
    lemma_scan_bounds(s, p + 1, Mode::Normal, seq!['}'], ';', '{', true);
}

/// The item that starts at `j` (not whitespace, a comment, `<!--` or `-->`) and the position
/// after it.
pub open spec fn sheet_step(s: Seq<char>, j: int) -> (SpecSheetItem, int) {
    if s[j] == '@' && ident_starts(s, j + 1) {
        (SpecSheetItem::AtRule(s.subrange(j, at_rule_end(s, j))), at_rule_end(s, j))
    } else {
        let p = scan(s, j, Mode::Normal, seq![], '{', '{', false);
        if p < s.len() {
            (
                SpecSheetItem::Rule(
                    j,
                    s.subrange(j, p),
                    decls_ok(declaration_list(s.subrange(p + 1, block_inner_end(s, p)))),
                ),
                block_end(s, p),
            )
        } else {
            (SpecSheetItem::Invalid, s.len() as int)
        }
    }
}

pub proof fn lemma_sheet_step(s: Seq<char>, j: int)
    requires
        0 <= j < s.len(),
    ensures
        j < sheet_step(s, j).1 <= s.len(),
{
    if s[j] == '@' && ident_starts(s, j + 1) {
        lemma_at_rule_end(s, j);
    } else {
        lemma_scan_bounds(s, j, Mode::Normal, seq![], '{', '{', false);
        let p = scan(s, j, Mode::Normal, seq![], '{', '{', false);
        if p < s.len() {
            lemma_block(s, p);
        }
    }
}

/// The items of the stylesheet `s` from `i`.
pub open spec fn parse_sheet(s: Seq<char>, i: int) -> Seq<SpecSheetItem>
    decreases s.len() - i,
{
    if 0 <= i <= s.len() {
        let j = skip_top(s, i);
        if j < s.len() {
            proof {
                lemma_skip_top(s, i);
                lemma_sheet_step(s, j);
            }
            seq![sheet_step(s, j).0] + parse_sheet(s, sheet_step(s, j).1)
        } else {
            seq![]
        }
    } else {
        seq![]
    }
}

/// All the items of a stylesheet.
pub open spec fn stylesheet(s: Seq<char>) -> Seq<SpecSheetItem> {
    parse_sheet(s, 0)
}

/// A copy of `v[lo..hi]`.
pub fn sub_vec(v: &Vec<char>, lo: usize, hi: usize) -> (r: Vec<char>)
    requires
        lo <= hi <= v.len(),
    ensures
        r@ == v@.subrange(lo as int, hi as int),
{
    let mut r: Vec<char> = Vec::new();
    let mut i = lo;
    while i < hi
        invariant
            lo <= i <= hi <= v.len(),
            r@ == v@.subrange(lo as int, i as int),
        decreases hi - i,
    {
        r.push(v[i]);
        i += 1;
        assert(r@ =~= v@.subrange(lo as int, i as int));
    }
    r
}

/// The well-formed declarations of a declaration list, in order. This is what a rule's block
/// contributes.
pub fn parse_block_declarations(s: &Vec<char>) -> (r: Vec<Declaration>)
    requires
        s.len() < usize::MAX,
    ensures
        r@.map_values(|d: Declaration| d@) == decls_ok(declaration_list(s@)),
{
    let mut out: Vec<Declaration> = Vec::new();
    let mut i: usize = 0;
    while i < s.len()
        invariant
            i <= s.len() < usize::MAX,
            decls_ok(declaration_list(s@)) == out@.map_values(|d: Declaration| d@) + decls_ok(
                parse_decls(s@, i as int),
            ),
        decreases s.len() - i,
    {
        proof {
            lemma_skip_decl_sep(s@, i as int);
        }
        let j = skip_decl_sep_exec(s, i);
        if j >= s.len() {
            proof {
                assert(parse_decls(s@, i as int) =~= seq![]);
                assert(parse_decls(s@, s.len() as int) =~= seq![]);
            }
            i = s.len();
        } else {
            proof {
                lemma_decl_step(s@, j as int);
            }
            let (item, next) = decl_step_exec(s, j);
            let ghost before = out@.map_values(|d: Declaration| d@);
            let ghost rest = parse_decls(s@, next as int);
            let ghost whole = seq![decl_step(s@, j as int).0] + rest;
            proof {
                assert(parse_decls(s@, i as int) == whole);
                assert(whole[0] == decl_step(s@, j as int).0);
                assert(whole.drop_first() =~= rest);
            }
            match item {
                DeclItem::Decl(d) => {
                    out.push(d);
                    proof {
                        assert(out@.map_values(|d: Declaration| d@) =~= before.push(
                            (d.name@, d.value@),
                        ));
                        assert(decls_ok(declaration_list(s@)) =~= out@.map_values(
                            |d: Declaration| d@,
                        ) + decls_ok(rest));
                    }
                },
                DeclItem::Error(_) => {},
            }
            i = next;
        }
    }
    proof {
        assert(parse_decls(s@, i as int) =~= seq![]);
        assert(decls_ok(parse_decls(s@, i as int)) =~= seq![]);
        assert(out@.map_values(|d: Declaration| d@) + seq![] =~= out@.map_values(
            |d: Declaration| d@,
        ));
    }
    out
}

/// The item that starts at `j` and the position after it.
pub fn sheet_step_exec(s: &Vec<char>, j: usize) -> (r: (SheetItem, usize))
    requires
        j < s.len() < usize::MAX,
    ensures
        r.0@ == sheet_step(s@, j as int).0,
        r.1 == sheet_step(s@, j as int).1,
{
    proof {
        lemma_sheet_step(s@, j as int);
    }
    if s[j] == '@' && ident_starts_exec(s, j + 1) {
        proof {
            lemma_at_rule_end(s@, j as int);
        }
        let e = at_rule_end_exec(s, j);
        let mut text = String::new();
        push_range(&mut text, s, j, e);
        return (SheetItem::AtRule(text), e);
    }
    proof {
        lemma_scan_bounds(s@, j as int, Mode::Normal, seq![], '{', '{', false);
    }
    let p = scan_exec(s, j, Mode::Normal, Vec::new(), '{', '{', false);
    if p < s.len() {
        proof {
            lemma_block(s@, p as int);
            lemma_scan_bounds(s@, p + 1, Mode::Normal, seq!['}'], ';', '{', true);
        }
        let mut st: Vec<char> = Vec::new();
        st.push('}');
        assert(st@ =~= seq!['}']);
        let q = scan_exec(s, p + 1, Mode::Normal, st, ';', '{', true);
        let (inner_end, end) = if q > s.len() {
            (s.len(), s.len())
        } else {
            (q - 1, q)
        };
        let inner = sub_vec(s, p + 1, inner_end);
        let declarations = parse_block_declarations(&inner);
        let mut selectors = String::new();
        push_range(&mut selectors, s, j, p);
        (SheetItem::Rule(Rule { start: j, selectors, declarations }), end)
    } else {
        (SheetItem::Invalid, s.len())
    }
}

/// Reads a stylesheet into its top-level items.
pub fn parse_stylesheet(s: &Vec<char>) -> (r: Vec<SheetItem>)
    requires
        s.len() < usize::MAX - 4,
    ensures
        r@.map_values(|x: SheetItem| x@) == stylesheet(s@),
{
    let mut out: Vec<SheetItem> = Vec::new();
    let mut i: usize = 0;
    while i < s.len()
        invariant
            i <= s.len() < usize::MAX - 4,
            stylesheet(s@) == out@.map_values(|x: SheetItem| x@) + parse_sheet(s@, i as int),
        decreases s.len() - i,
    {
        proof {
            lemma_skip_top(s@, i as int);
        }
        let j = skip_top_exec(s, i);
        if j >= s.len() {
            proof {
                assert(parse_sheet(s@, i as int) =~= seq![]);
                assert(parse_sheet(s@, s.len() as int) =~= seq![]);
            }
            i = s.len();
        } else {
            proof {
                lemma_sheet_step(s@, j as int);
            }
            let (item, next) = sheet_step_exec(s, j);
            let ghost before = out@.map_values(|x: SheetItem| x@);
            out.push(item);
            proof {
                assert(out@.map_values(|x: SheetItem| x@) =~= before.push(sheet_step(s@, j as int).0));
                assert(parse_sheet(s@, i as int) == seq![sheet_step(s@, j as int).0] + parse_sheet(
                    s@,
                    next as int,
                ));
                assert(stylesheet(s@) =~= out@.map_values(|x: SheetItem| x@) + parse_sheet(
                    s@,
                    next as int,
                ));
            }
            i = next;
        }
    }
    proof {
        assert(parse_sheet(s@, i as int) =~= seq![]);
    }
    out
}

} // verus!
