//! Removing inlined selectors from `style` elements.
//!
//! Each selector of each rule that comes from a `style` element is recorded with the piece
//! of gathered CSS it comes from and whether it matched an element. Afterwards a `style`
//! element keeps only the rules whose selectors matched nothing, rewritten with those
//! selectors; a `style` element left with nothing is emptied when style tags are kept and
//! removed otherwise.
use vstd::prelude::*;
use crate::declarations::{ends_with_seq, entries_view, Entry};
use crate::dom::{spec_append, spec_detach, Node, NodeData, NodeId, node_links_ok};
use crate::inliner::{split_on, split_selectors, CssRule};
use crate::serializer::attrs_fit;
use crate::sources::{CssChunk, CssOrigin, vecs_view};
use crate::text::{ends_with, str_chars, trim};
use crate::tree_builder::ParsedDocument;

verus! {

/// A selector of a rule, the piece of gathered CSS the rule comes from, and whether the
/// selector matched an element.
pub struct Usage {
    pub chunk: usize,
    pub rule: usize,
    pub selector: Vec<char>,
    pub matched: bool,
}

impl View for Usage {
    type V = (int, int, Seq<char>, bool);

    open spec fn view(&self) -> (int, int, Seq<char>, bool) {
        (self.chunk as int, self.rule as int, self.selector@, self.matched)
    }
}

pub open spec fn usages_view(us: Seq<Usage>) -> Seq<(int, int, Seq<char>, bool)> {
    us.map_values(|u: Usage| u@)
}

/// The index of the first piece that holds position `pos`, or `-1`.
pub open spec fn chunk_of(chunks: Seq<CssChunk>, pos: int) -> int
    decreases chunks.len(),
{
    if chunks.len() == 0 {
        -1
    } else if chunks[0].start <= pos < chunks[0].end {
        0
    } else {
        let r = chunk_of(chunks.drop_first(), pos);
        if r < 0 { -1 } else { r + 1 }
    }
}

/// The usages of the selectors of rule `r`, which starts at `start`.
pub open spec fn rule_usages(
    r: int,
    start: int,
    selectors: Seq<char>,
    chunks: Seq<CssChunk>,
    flags: Seq<bool>,
) -> Seq<(int, int, Seq<char>, bool)> {
    let c = chunk_of(chunks, start);
    let ps = split_on(selectors, ',');
    if c < 0 {
        seq![]
    } else {
        Seq::new(ps.len(), |p: int| (c, r, ps[p], p < flags.len() && flags[p]))
    }
}

/// The usages of the selectors of all rules, in order.
pub open spec fn usages_of(
    rules: Seq<(int, Seq<char>)>,
    chunks: Seq<CssChunk>,
    flags: Seq<Seq<bool>>,
) -> Seq<(int, int, Seq<char>, bool)>
    decreases rules.len(),
{
    if rules.len() == 0 {
        seq![]
    } else {
        let r = rules.len() - 1;
        usages_of(rules.drop_last(), chunks, flags) + rule_usages(
            r,
            rules.last().0,
            rules.last().1,
            chunks,
            if r < flags.len() {
                flags[r]
            } else {
                seq![]
            },
        )
    }
}

pub open spec fn rule_heads(rules: Seq<CssRule>) -> Seq<(int, Seq<char>)> {
    rules.map_values(|r: CssRule| (r.start as int, r.selectors@))
}

/// The index of the first piece that holds position `pos`.
pub fn chunk_index(chunks: &Vec<CssChunk>, pos: usize) -> (r: Option<usize>)
    ensures
        match r {
            Some(k) => k < chunks.len() && chunk_of(chunks@, pos as int) == k,
            None => chunk_of(chunks@, pos as int) == -1,
        },
{
    let mut i: usize = 0;
    assert(chunks@.subrange(0, chunks.len() as int) =~= chunks@);
    while i < chunks.len()
        invariant
            i <= chunks.len(),
            chunk_of(chunks@, pos as int) == (if chunk_of(chunks@.subrange(i as int, chunks.len() as int), pos as int) < 0 {
                -1
            } else {
                chunk_of(chunks@.subrange(i as int, chunks.len() as int), pos as int) + i
            }),
        decreases chunks.len() - i,
    {
        let ghost rest = chunks@.subrange(i as int, chunks.len() as int);
        assert(rest[0] == chunks@[i as int]);
        if chunks[i].start <= pos && pos < chunks[i].end {
            return Some(i);
        }
        assert(rest.drop_first() =~= chunks@.subrange(i + 1, chunks.len() as int));
        i += 1;
    }
    assert(chunks@.subrange(i as int, chunks.len() as int) =~= Seq::<CssChunk>::empty());
    None
}

/// The usages of the selectors of all rules.
pub fn collect_usages(rules: &Vec<CssRule>, chunks: &Vec<CssChunk>, flags: &Vec<Vec<bool>>) -> (r: Vec<Usage>)
    ensures
        usages_view(r@) == usages_of(rule_heads(rules@), chunks@, flags@.map_values(|f: Vec<bool>| f@)),
{
    let ghost hv = rule_heads(rules@);
    let ghost fv = flags@.map_values(|f: Vec<bool>| f@);
    let mut out: Vec<Usage> = Vec::new();
    let mut r: usize = 0;
    assert(hv.subrange(0, 0) =~= Seq::<(int, Seq<char>)>::empty());
    while r < rules.len()
        invariant
            r <= rules.len(),
            hv == rule_heads(rules@),
            fv == flags@.map_values(|f: Vec<bool>| f@),
            usages_view(out@) == usages_of(hv.subrange(0, r as int), chunks@, fv),
        decreases rules.len() - r,
    {
        proof {
            let cur = hv.subrange(0, r + 1);
            assert(cur.drop_last() =~= hv.subrange(0, r as int));
            assert(cur.last() == (rules@[r as int].start as int, rules@[r as int].selectors@));
        }
        let ghost base = usages_view(out@);
        let ghost fr = if r < flags.len() {
            fv[r as int]
        } else {
            Seq::<bool>::empty()
        };
        let ghost expected = rule_usages(r as int, rules@[r as int].start as int, rules@[r as int].selectors@, chunks@, fr);
        match chunk_index(chunks, rules[r].start) {
            Some(c) => {
                let pieces = split_selectors(&rules[r].selectors);
                let mut p: usize = 0;
                while p < pieces.len()
                    invariant
                        p <= pieces.len(),
                        vecs_view(pieces@) == split_on(rules@[r as int].selectors@, ','),
                        r < rules.len(),
                        chunk_of(chunks@, rules@[r as int].start as int) == c,
                        fr == (if r < flags.len() { fv[r as int] } else { Seq::<bool>::empty() }),
                        fv == flags@.map_values(|f: Vec<bool>| f@),
                        expected == rule_usages(r as int, rules@[r as int].start as int, rules@[r as int].selectors@, chunks@, fr),
                        usages_view(out@) == base + expected.subrange(0, p as int),
                    decreases pieces.len() - p,
                {
                    let matched = r < flags.len() && p < flags[r].len() && flags[r][p];
                    let ghost before = usages_view(out@);
                    out.push(Usage { chunk: c, rule: r, selector: pieces[p].clone(), matched });
                    proof {
                        assert(pieces@[p as int]@ == vecs_view(pieces@)[p as int]);
                        if r < flags.len() {
                            assert(fv[r as int] == flags@[r as int]@);
                        }
                        assert(usages_view(out@) =~= before.push(expected[p as int]));
                        assert(base + expected.subrange(0, p + 1) =~= before.push(expected[p as int]));
                    }
                    p += 1;
                }
                assert(expected.subrange(0, pieces.len() as int) =~= expected);
            },
            None => {
                assert(expected =~= Seq::<(int, int, Seq<char>, bool)>::empty());
                assert(usages_view(out@) =~= base + expected);
            },
        }
        r += 1;
    }
    assert(hv.subrange(0, rules.len() as int) =~= hv);
    out
}

/// Some selector matched no element.
pub open spec fn has_unmatched(us: Seq<(int, int, Seq<char>, bool)>) -> bool {
    exists|k: int| 0 <= k < us.len() && !(#[trigger] us[k]).3
}

pub fn any_unmatched(us: &Vec<Usage>) -> (r: bool)
    ensures
        r == has_unmatched(usages_view(us@)),
{
    let mut i: usize = 0;
    while i < us.len()
        invariant
            i <= us.len(),
            forall|k: int| 0 <= k < i ==> (#[trigger] us@[k]).matched,
        decreases us.len() - i,
    {
        if !us[i].matched {
            assert(!usages_view(us@)[i as int].3);
            return true;
        }
        i += 1;
    }
    assert forall|k: int| 0 <= k < us.len() implies (#[trigger] usages_view(us@)[k]).3 by {
        assert(usages_view(us@)[k] == us@[k]@);
    }
    false
}

/// The index of the first remainder of rule `rule`, or `-1`.
pub open spec fn find_remainder(rems: Seq<(int, Seq<Seq<char>>)>, rule: int) -> int
    decreases rems.len(),
{
    if rems.len() == 0 {
        -1
    } else if rems[0].0 == rule {
        0
    } else {
        let r = find_remainder(rems.drop_first(), rule);
        if r < 0 { -1 } else { r + 1 }
    }
}

/// The rules of piece `chunk` that keep selectors, in the order they first appear, each with
/// its selectors that matched nothing, trimmed; empty selectors are left out.
pub open spec fn remainders(us: Seq<(int, int, Seq<char>, bool)>, chunk: int) -> Seq<(int, Seq<Seq<char>>)>
    decreases us.len(),
{
    if us.len() == 0 {
        seq![]
    } else {
        let prev = remainders(us.drop_last(), chunk);
        let u = us.last();
        if u.0 == chunk && !u.3 && trim(u.2).len() > 0 {
            let k = find_remainder(prev, u.1);
            if k >= 0 {
                prev.update(k, (prev[k].0, prev[k].1.push(trim(u.2))))
            } else {
                prev.push((u.1, seq![trim(u.2)]))
            }
        } else {
            prev
        }
    }
}

/// Selectors joined by `, `.
pub open spec fn joined_selectors(sels: Seq<Seq<char>>) -> Seq<char>
    decreases sels.len(),
{
    if sels.len() == 0 {
        seq![]
    } else if sels.len() == 1 {
        sels[0]
    } else {
        joined_selectors(sels.drop_last()) + ", "@ + sels.last()
    }
}

/// One declaration of a rewritten rule: ` name: value;`, the value trimmed and its `;`
/// not doubled.
pub open spec fn decl_text(d: (Seq<char>, Seq<char>)) -> Seq<char> {
    " "@ + d.0 + ": "@ + trim(d.1) + if ends_with_seq(trim(d.1), seq![';']) {
        seq![]
    } else {
        seq![';']
    }
}

pub open spec fn decls_text(ds: Seq<(Seq<char>, Seq<char>)>) -> Seq<char>
    decreases ds.len(),
{
    if ds.len() == 0 {
        seq![]
    } else {
        decls_text(ds.drop_last()) + decl_text(ds.last())
    }
}

/// A rewritten rule; a rule without selectors or declarations gives nothing.
pub open spec fn rule_text(sels: Seq<Seq<char>>, ds: Seq<(Seq<char>, Seq<char>)>) -> Seq<char> {
    if sels.len() == 0 || ds.len() == 0 {
        seq![]
    } else {
        joined_selectors(sels) + " {"@ + decls_text(ds) + " }\n"@
    }
}

/// The rewritten rules of a piece.
pub open spec fn chunk_css(
    rems: Seq<(int, Seq<Seq<char>>)>,
    decls: Seq<Seq<(Seq<char>, Seq<char>)>>,
) -> Seq<char>
    decreases rems.len(),
{
    if rems.len() == 0 {
        seq![]
    } else {
        let r = rems.last();
        chunk_css(rems.drop_last(), decls) + rule_text(
            r.1,
            if 0 <= r.0 < decls.len() {
                decls[r.0]
            } else {
                seq![]
            },
        )
    }
}

/// What happens to the `style` element of a piece.
pub enum Cleanup {
    Keep,
    Detach(NodeId),
    Overwrite(NodeId, Vec<char>),
}

pub enum SpecCleanup {
    Keep,
    Detach(int),
    Overwrite(int, Seq<char>),
}

impl View for Cleanup {
    type V = SpecCleanup;

    open spec fn view(&self) -> SpecCleanup {
        match self {
            Cleanup::Keep => SpecCleanup::Keep,
            Cleanup::Detach(id) => SpecCleanup::Detach(id.0 as int),
            Cleanup::Overwrite(id, text) => SpecCleanup::Overwrite(id.0 as int, text@),
        }
    }
}

/// The action for piece `idx`: a piece from a `style` element gets its remaining rules, or
/// is emptied when style tags are kept, or has its element removed; other pieces are kept.
pub open spec fn chunk_action(
    us: Seq<(int, int, Seq<char>, bool)>,
    idx: int,
    chunk: CssChunk,
    decls: Seq<Seq<(Seq<char>, Seq<char>)>>,
    keep_style_tags: bool,
) -> SpecCleanup {
    match chunk.origin {
        CssOrigin::StyleNode(id) => {
            let rems = remainders(us, idx);
            let text = chunk_css(rems, decls);
            if rems.len() == 0 || trim(text).len() == 0 {
                if keep_style_tags {
                    SpecCleanup::Overwrite(id.0 as int, seq![])
                } else {
                    SpecCleanup::Detach(id.0 as int)
                }
            } else {
                SpecCleanup::Overwrite(id.0 as int, trim(text))
            }
        },
        _ => SpecCleanup::Keep,
    }
}

} // verus!

verus! {

/// A rule that keeps some selectors.
pub struct Remainder {
    pub rule: usize,
    pub selectors: Vec<Vec<char>>,
}

pub open spec fn rems_view(rs: Seq<Remainder>) -> Seq<(int, Seq<Seq<char>>)> {
    rs.map_values(|r: Remainder| (r.rule as int, vecs_view(r.selectors@)))
}

/// The index of the first remainder of rule `rule`.
fn find_remainder_exec(rems: &Vec<Remainder>, rule: usize) -> (r: Option<usize>)
    ensures
        match r {
            Some(k) => k < rems.len() && find_remainder(rems_view(rems@), rule as int) == k,
            None => find_remainder(rems_view(rems@), rule as int) == -1,
        },
{
    let ghost v = rems_view(rems@);
    let mut i: usize = 0;
    assert(v.subrange(0, v.len() as int) =~= v);
    while i < rems.len()
        invariant
            i <= rems.len(),
            v == rems_view(rems@),
            find_remainder(v, rule as int) == (if find_remainder(v.subrange(i as int, v.len() as int), rule as int) < 0 {
                -1
            } else {
                find_remainder(v.subrange(i as int, v.len() as int), rule as int) + i
            }),
        decreases rems.len() - i,
    {
        let ghost rest = v.subrange(i as int, v.len() as int);
        assert(rest[0] == v[i as int]);
        if rems[i].rule == rule {
            return Some(i);
        }
        assert(rest.drop_first() =~= v.subrange(i + 1, v.len() as int));
        i += 1;
    }
    assert(v.subrange(i as int, v.len() as int) =~= Seq::<(int, Seq<Seq<char>>)>::empty());
    None
}

/// The remainders of piece `chunk`.
pub fn chunk_remainders(us: &Vec<Usage>, chunk: usize) -> (r: Vec<Remainder>)
    ensures
        rems_view(r@) == remainders(usages_view(us@), chunk as int),
{
    let ghost uv = usages_view(us@);
    let mut rems: Vec<Remainder> = Vec::new();
    let mut i: usize = 0;
    assert(uv.subrange(0, 0) =~= Seq::<(int, int, Seq<char>, bool)>::empty());
    while i < us.len()
        invariant
            i <= us.len(),
            uv == usages_view(us@),
            rems_view(rems@) == remainders(uv.subrange(0, i as int), chunk as int),
        decreases us.len() - i,
    {
        proof {
            let cur = uv.subrange(0, i + 1);
            assert(cur.drop_last() =~= uv.subrange(0, i as int));
            assert(cur.last() == us@[i as int]@);
        }
        let ghost prev = rems_view(rems@);
        let u = &us[i];
        if u.chunk == chunk && !u.matched {
            let t = crate::declarations::trimmed(&u.selector);
            if t.len() > 0 {
                let pos = find_remainder_exec(&rems, u.rule);
                if pos.is_some() {
                    let k = pos.unwrap();
                    let mut slot = Remainder { rule: 0, selectors: Vec::new() };
                    std::mem::swap(&mut slot, &mut rems[k]);
                    let ghost old_sels = vecs_view(slot.selectors@);
                    slot.selectors.push(t);
                    assert(vecs_view(slot.selectors@) =~= old_sels.push(trim(u.selector@)));
                    rems.set(k, slot);
                    assert(rems_view(rems@) =~= prev.update(k as int, (prev[k as int].0, prev[k as int].1.push(trim(u.selector@)))));
                } else {
                    let mut sels: Vec<Vec<char>> = Vec::new();
                    sels.push(t);
                    assert(vecs_view(sels@) =~= seq![trim(u.selector@)]);
                    rems.push(Remainder { rule: u.rule, selectors: sels });
                    assert(rems_view(rems@) =~= prev.push((u.rule as int, seq![trim(u.selector@)])));
                }
            }
        }
        i += 1;
    }
    assert(uv.subrange(0, us.len() as int) =~= uv);
    rems
}

/// Appends the characters of `v`.
fn extend(out: &mut Vec<char>, v: &Vec<char>)
    ensures
        final(out)@ == old(out)@ + v@,
{
    let mut i: usize = 0;
    while i < v.len()
        invariant
            i <= v.len(),
            out@ == old(out)@ + v@.subrange(0, i as int),
        decreases v.len() - i,
    {
        out.push(v[i]);
        i += 1;
        assert(out@ =~= old(out)@ + v@.subrange(0, i as int));
    }
    assert(v@.subrange(0, v.len() as int) =~= v@);
}

/// Appends the characters of `lit`.
fn extend_str(out: &mut Vec<char>, lit: &str)
    ensures
        final(out)@ == old(out)@ + lit@,
{
    let v = str_chars(lit);
    extend(out, &v);
}

/// Appends the selectors joined by `, `.
fn push_joined_selectors(out: &mut Vec<char>, sels: &Vec<Vec<char>>)
    ensures
        final(out)@ == old(out)@ + joined_selectors(vecs_view(sels@)),
{
    let ghost sv = vecs_view(sels@);
    let mut i: usize = 0;
    assert(sv.subrange(0, 0) =~= Seq::<Seq<char>>::empty());
    while i < sels.len()
        invariant
            i <= sels.len(),
            sv == vecs_view(sels@),
            out@ == old(out)@ + joined_selectors(sv.subrange(0, i as int)),
        decreases sels.len() - i,
    {
        let ghost before = out@;
        if i > 0 {
            extend_str(out, ", ");
        }
        extend(out, &sels[i]);
        proof {
            let cur = sv.subrange(0, i + 1);
            assert(cur.drop_last() =~= sv.subrange(0, i as int));
            assert(cur.last() == sels@[i as int]@);
            if i == 0 {
                assert(joined_selectors(cur) == cur[0]);
            }
            assert(out@ =~= old(out)@ + joined_selectors(cur));
        }
        i += 1;
    }
    assert(sv.subrange(0, sels.len() as int) =~= sv);
}

/// Appends the declarations of a rewritten rule.
fn push_decls_text(out: &mut Vec<char>, ds: &Vec<Entry>)
    ensures
        final(out)@ == old(out)@ + decls_text(entries_view(ds@)),
{
    let ghost dv = entries_view(ds@);
    let semicolon = str_chars(";");
    proof {
        reveal_strlit(";");
        assert(semicolon@ =~= seq![';']);
    }
    let mut i: usize = 0;
    assert(dv.subrange(0, 0) =~= Seq::<(Seq<char>, Seq<char>)>::empty());
    while i < ds.len()
        invariant
            i <= ds.len(),
            dv == entries_view(ds@),
            semicolon@ == seq![';'],
            out@ == old(out)@ + decls_text(dv.subrange(0, i as int)),
        decreases ds.len() - i,
    {
        let ghost before = out@;
        extend_str(out, " ");
        extend(out, &ds[i].name);
        extend_str(out, ": ");
        let v = crate::declarations::trimmed(&ds[i].value);
        extend(out, &v);
        if !ends_with(&v, &semicolon) {
            out.push(';');
        }
        proof {
            let cur = dv.subrange(0, i + 1);
            assert(cur.drop_last() =~= dv.subrange(0, i as int));
            assert(cur.last() == ds@[i as int]@);
            assert(out@ =~= before + decl_text(ds@[i as int]@));
        }
        i += 1;
    }
    assert(dv.subrange(0, ds.len() as int) =~= dv);
}

/// The rewritten rules of a piece.
pub fn chunk_css_text(rems: &Vec<Remainder>, decls: &Vec<Vec<Entry>>) -> (r: Vec<char>)
    ensures
        r@ == chunk_css(rems_view(rems@), decls@.map_values(|d: Vec<Entry>| entries_view(d@))),
{
    let ghost rv = rems_view(rems@);
    let ghost dv = decls@.map_values(|d: Vec<Entry>| entries_view(d@));
    let mut out: Vec<char> = Vec::new();
    let mut i: usize = 0;
    assert(rv.subrange(0, 0) =~= Seq::<(int, Seq<Seq<char>>)>::empty());
    assert(out@ =~= Seq::<char>::empty());
    while i < rems.len()
        invariant
            i <= rems.len(),
            rv == rems_view(rems@),
            dv == decls@.map_values(|d: Vec<Entry>| entries_view(d@)),
            out@ == chunk_css(rv.subrange(0, i as int), dv),
        decreases rems.len() - i,
    {
        let ghost before = out@;
        proof {
            let cur = rv.subrange(0, i + 1);
            assert(cur.drop_last() =~= rv.subrange(0, i as int));
            assert(cur.last() == rv[i as int]);
        }
        let rem = &rems[i];
        let empty: Vec<Entry> = Vec::new();
        let ds: &Vec<Entry> = if rem.rule < decls.len() {
            &decls[rem.rule]
        } else {
            &empty
        };
        proof {
            if rem.rule < decls.len() {
                assert(dv[rem.rule as int] == entries_view(ds@));
            } else {
                assert(entries_view(ds@) =~= Seq::<(Seq<char>, Seq<char>)>::empty());
            }
        }
        if rem.selectors.len() > 0 && ds.len() > 0 {
            push_joined_selectors(&mut out, &rem.selectors);
            extend_str(&mut out, " {");
            push_decls_text(&mut out, ds);
            extend_str(&mut out, " }\n");
            assert(out@ =~= before + rule_text(rv[i as int].1, entries_view(ds@)));
        } else {
            assert(out@ =~= before + rule_text(rv[i as int].1, entries_view(ds@)));
        }
        i += 1;
    }
    assert(rv.subrange(0, rems.len() as int) =~= rv);
    out
}

/// The action for each piece, or none at all when there are no usages or no pieces.
pub fn plan_cleanup(
    us: &Vec<Usage>,
    chunks: &Vec<CssChunk>,
    decls: &Vec<Vec<Entry>>,
    keep_style_tags: bool,
) -> (r: Vec<Cleanup>)
    ensures
        us.len() == 0 || chunks.len() == 0 ==> r.len() == 0,
        us.len() > 0 && chunks.len() > 0 ==> r.len() == chunks.len() && forall|i: int|
            0 <= i < r.len() ==> (#[trigger] r@[i])@ == chunk_action(
                usages_view(us@),
                i,
                chunks@[i],
                decls@.map_values(|d: Vec<Entry>| entries_view(d@)),
                keep_style_tags,
            ),
{
    let mut actions: Vec<Cleanup> = Vec::new();
    if us.len() == 0 || chunks.len() == 0 {
        return actions;
    }
    let mut i: usize = 0;
    while i < chunks.len()
        invariant
            i <= chunks.len(),
            actions.len() == i,
            forall|k: int|
                0 <= k < i ==> (#[trigger] actions@[k])@ == chunk_action(
                    usages_view(us@),
                    k,
                    chunks@[k],
                    decls@.map_values(|d: Vec<Entry>| entries_view(d@)),
                    keep_style_tags,
                ),
        decreases chunks.len() - i,
    {
        let action = match chunks[i].origin {
            CssOrigin::StyleNode(id) => {
                let rems = chunk_remainders(us, i);
                let text = chunk_css_text(&rems, decls);
                let t = crate::declarations::trimmed(&text);
                if rems.len() == 0 || t.len() == 0 {
                    if keep_style_tags {
                        Cleanup::Overwrite(id, Vec::new())
                    } else {
                        Cleanup::Detach(id)
                    }
                } else {
                    Cleanup::Overwrite(id, t)
                }
            },
            _ => Cleanup::Keep,
        };
        proof {
            match action@ {
                SpecCleanup::Overwrite(_, v) => {
                    if v.len() == 0 {
                        assert(v =~= Seq::<char>::empty());
                    }
                },
                _ => {},
            }
        }
        actions.push(action);
        i += 1;
    }
    actions
}

/// The nodes after the text of the `style` element `node` becomes `t`: its first child gets
/// the text when it is a text node; otherwise a new text node with it is appended, unless
/// the text is empty.
pub open spec fn overwrite_with(nodes: Seq<Node>, node: int, t: String) -> Seq<Node> {
    let appended = if t@.len() == 0 {
        nodes
    } else {
        spec_append(nodes.push(Node::new_spec(NodeData::Text { text: t })), node, nodes.len() as int)
    };
    match nodes[node].first_child {
        Some(first) => {
            let c = first.0 as int;
            if nodes[c].data is Text {
                nodes.update(c, Node { data: NodeData::Text { text: t }, ..nodes[c] })
            } else {
                appended
            }
        },
        None => appended,
    }
}

/// `after` is `before` with the text of the `style` element `node` replaced by `css`.
pub open spec fn overwritten(before: Seq<Node>, after: Seq<Node>, node: int, css: Seq<char>) -> bool {
    exists|t: String| t@ == css && after == #[trigger] overwrite_with(before, node, t)
}

/// One action carried out; an action on a node that does not exist does nothing.
pub open spec fn cleanup_step(before: Seq<Node>, action: SpecCleanup, after: Seq<Node>) -> bool {
    match action {
        SpecCleanup::Keep => after == before,
        SpecCleanup::Detach(id) => if 1 <= id < before.len() {
            after == spec_detach(before, id)
        } else {
            after == before
        },
        SpecCleanup::Overwrite(id, css) => if 1 <= id < before.len() {
            overwritten(before, after, id, css)
        } else {
            after == before
        },
    }
}

/// `states` goes from `before` through the actions, one state after each.
pub open spec fn steps_ok(before: Seq<Node>, actions: Seq<SpecCleanup>, states: Seq<Seq<Node>>) -> bool {
    &&& states.len() == actions.len() + 1
    &&& states[0] == before
    &&& forall|k: int| 0 <= k < actions.len() ==> cleanup_step(states[k], #[trigger] actions[k], states[k + 1])
}

/// `after` is `before` with the actions carried out in order.
pub open spec fn cleaned(before: Seq<Node>, actions: Seq<SpecCleanup>, after: Seq<Node>) -> bool {
    exists|states: Seq<Seq<Node>>| #[trigger] steps_ok(before, actions, states) && states.last() == after
}

/// Replaces the text of a `style` element: its first child when that is a text node, or a new
/// text child when the text is not empty.
pub fn overwrite_style_node(parsed: &mut ParsedDocument, node: NodeId, css: &Vec<char>)
    requires
        old(parsed).wf(),
        1 <= node.0 < old(parsed).document.nodes.len(),
    ensures
        final(parsed).wf(),
        overwritten(old(parsed).document.nodes@, final(parsed).document.nodes@, node.0 as int, css@),
        final(parsed).document.elements@ == old(parsed).document.elements@,
        final(parsed).document.styles@ == old(parsed).document.styles@,
        final(parsed).document.linked_stylesheets@ == old(parsed).document.linked_stylesheets@,
        final(parsed).parsed_elements@ == old(parsed).parsed_elements@,
        final(parsed).tree == old(parsed).tree,
{
    let ghost before = parsed.document.nodes@;
    let text = crate::text::range_string(css, 0, css.len());
    let ghost t = text;
    assert(t@ =~= css@);
    let first = parsed.document.nodes[node.0].first_child;
    proof {
        assert(node_links_ok(parsed.document.nodes@, node.0 as int));
    }
    match first {
        Some(c) => {
            let is_text = match &parsed.document.nodes[c.0].data {
                NodeData::Text { .. } => true,
                _ => false,
            };
            if is_text {
                parsed.document.nodes[c.0].data = NodeData::Text { text };
                proof {
                    let after = parsed.document.nodes@;
                    assert(after =~= overwrite_with(before, node.0 as int, t));
                    assert forall|i: int| 0 <= i < after.len() implies #[trigger] node_links_ok(after, i) by {
                        assert(node_links_ok(before, i));
                    }
                    assert forall|i: int| 0 <= i < after.len() implies match #[trigger] after[i].data {
                        NodeData::Element { element, .. } => attrs_fit(element.attributes.attributes@),
                        _ => true,
                    } by {
                        if i != c.0 {
                            assert(after[i] == before[i]);
                        }
                    }
                    assert(after[1] == before[1]);
                }
                return;
            }
        },
        None => {},
    }
    if css.len() == 0 {
        assert(before == overwrite_with(before, node.0 as int, t));
        return;
    }
    let ghost n0 = parsed.document.nodes@;
    let id = parsed.document.push_node(NodeData::Text { text });
    proof {
        let nodes = parsed.document.nodes@;
        assert forall|i: int| 0 <= i < nodes.len() implies match #[trigger] nodes[i].data {
            NodeData::Element { element, .. } => attrs_fit(element.attributes.attributes@),
            _ => true,
        } by {
            if i < n0.len() {
                assert(nodes[i] == n0[i]);
            }
        }
        assert(node_links_ok(parsed.document.nodes@, node.0 as int));
    }
    parsed.document.append(node, id);
    assert(parsed.document.nodes@ == overwrite_with(before, node.0 as int, t));
}

/// The actions as plain values.
pub open spec fn actions_view(actions: Seq<Cleanup>) -> Seq<SpecCleanup> {
    actions.map_values(|a: Cleanup| a@)
}

/// Carries out the actions on the document, in order.
pub fn apply_cleanup(parsed: &mut ParsedDocument, actions: &Vec<Cleanup>)
    requires
        old(parsed).wf(),
    ensures
        final(parsed).wf(),
        cleaned(old(parsed).document.nodes@, actions_view(actions@), final(parsed).document.nodes@),
        final(parsed).document.elements@ == old(parsed).document.elements@,
        final(parsed).document.styles@ == old(parsed).document.styles@,
        final(parsed).document.linked_stylesheets@ == old(parsed).document.linked_stylesheets@,
        final(parsed).parsed_elements@ == old(parsed).parsed_elements@,
        final(parsed).tree == old(parsed).tree,
{
    let ghost start = parsed.document.nodes@;
    let ghost av = actions_view(actions@);
    let ghost mut states: Seq<Seq<Node>> = seq![start];
    let mut i: usize = 0;
    assert(steps_ok(start, av.subrange(0, 0), states));
    while i < actions.len()
        invariant
            i <= actions.len(),
            parsed.wf(),
            av == actions_view(actions@),
            steps_ok(start, av.subrange(0, i as int), states),
            states.last() == parsed.document.nodes@,
            parsed.document.elements@ == old(parsed).document.elements@,
            parsed.document.styles@ == old(parsed).document.styles@,
            parsed.document.linked_stylesheets@ == old(parsed).document.linked_stylesheets@,
            parsed.parsed_elements@ == old(parsed).parsed_elements@,
            parsed.tree == old(parsed).tree,
        decreases actions.len() - i,
    {
        let ghost mid = parsed.document.nodes@;
        proof {
            let cur = av.subrange(0, i + 1);
            assert(cur.drop_last() =~= av.subrange(0, i as int));
            assert(cur.last() == actions@[i as int]@);
        }
        match &actions[i] {
            Cleanup::Keep => {},
            Cleanup::Detach(id) => {
                if 1 <= id.0 && id.0 < parsed.document.nodes.len() {
                    let ghost before = parsed.document.nodes@;
                    parsed.document.detach(*id);
                    proof {
                        crate::dom::lemma_detach_pointwise(before, id.0 as int);
                        let nodes = parsed.document.nodes@;
                        assert(nodes[1].data == before[1].data);
                        assert forall|k: int| 0 <= k < nodes.len() implies match #[trigger] nodes[k].data {
                            NodeData::Element { element, .. } => attrs_fit(element.attributes.attributes@),
                            _ => true,
                        } by {
                            assert(nodes[k].data == before[k].data);
                        }
                    }
                }
            },
            Cleanup::Overwrite(id, css) => {
                if 1 <= id.0 && id.0 < parsed.document.nodes.len() {
                    overwrite_style_node(parsed, *id, css);
                }
            },
        }
        proof {
            assert(cleanup_step(mid, av[i as int], parsed.document.nodes@));
            let old_states = states;
            states = states.push(parsed.document.nodes@);
            let cur = av.subrange(0, i + 1);
            assert forall|k: int| 0 <= k < cur.len() implies cleanup_step(states[k], #[trigger] cur[k], states[k + 1]) by {
                if k < i {
                    assert(cur[k] == av.subrange(0, i as int)[k]);
                    assert(cleanup_step(old_states[k], av.subrange(0, i as int)[k], old_states[k + 1]));
                }
            }
            assert(steps_ok(start, cur, states));
        }
        i += 1;
    }
    assert(av.subrange(0, actions.len() as int) =~= av);
    assert(steps_ok(start, av, states));
}

} // verus!
