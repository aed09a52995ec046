//! Writing declarations into a `style` attribute, and merging new declarations into the
//! declarations an element already has.
//!
//! Declarations are written as `name: value` with the value trimmed and its double quotes
//! turned into single quotes, so that the attribute stays well-formed. A declaration that an
//! element already has wins over a new one, unless the new one is `!important` and the
//! existing one is not; new declarations come first.
use vstd::prelude::*;
use crate::css::{declaration_list, parse_declaration_list, DeclItem, SpecDeclItem, SpecSyntaxError, SyntaxError};
use crate::text::{
    chars_eq, ends_with, push_str, str_chars, string_push, trim, trim_bounds,
};

verus! {

/// A declaration held as characters.
pub struct Entry {
    pub name: Vec<char>,
    pub value: Vec<char>,
}

impl View for Entry {
    type V = (Seq<char>, Seq<char>);

    open spec fn view(&self) -> (Seq<char>, Seq<char>) {
        (self.name@, self.value@)
    }
}

pub open spec fn entries_view(es: Seq<Entry>) -> Seq<(Seq<char>, Seq<char>)> {
    es.map_values(|e: Entry| e@)
}

/// `t` ends with `suffix`.
pub open spec fn ends_with_seq(t: Seq<char>, suffix: Seq<char>) -> bool {
    suffix.len() <= t.len() && t.subrange(t.len() - suffix.len(), t.len() as int) == suffix
}

/// The marker of an important declaration.
pub open spec fn important_marker() -> Seq<char> {
    "!important"@
}

/// `s` with each `"` replaced by `'`.
pub open spec fn replace_quotes(s: Seq<char>) -> Seq<char> {
    s.map_values(|c: char| if c == '"' { '\'' } else { c })
}

/// What separates a name from its value.
pub open spec fn separator(minify: bool) -> Seq<char> {
    if minify { ":"@ } else { ": "@ }
}

/// The text of one declaration.
pub open spec fn entry_text(e: (Seq<char>, Seq<char>), minify: bool) -> Seq<char> {
    e.0 + separator(minify) + replace_quotes(e.1)
}

/// Declarations joined by `;`, with no `;` after the last one.
pub open spec fn joined(es: Seq<(Seq<char>, Seq<char>)>, minify: bool) -> Seq<char>
    decreases es.len(),
{
    if es.len() == 0 {
        seq![]
    } else if es.len() == 1 {
        entry_text(es[0], minify)
    } else {
        joined(es.drop_last(), minify) + seq![';'] + entry_text(es.last(), minify)
    }
}

/// Declarations each followed by `;`.
pub open spec fn terminated(es: Seq<(Seq<char>, Seq<char>)>, minify: bool) -> Seq<char>
    decreases es.len(),
{
    if es.len() == 0 {
        seq![]
    } else {
        terminated(es.drop_last(), minify) + entry_text(es.last(), minify) + seq![';']
    }
}

/// The value of a fresh `style` attribute holding `es`: each declaration is followed by `;`,
/// except that a minified attribute has no `;` after the last one.
pub open spec fn fresh_style(es: Seq<(Seq<char>, Seq<char>)>, minify: bool) -> Seq<char> {
    if minify { joined(es, minify) } else { terminated(es, minify) }
}

/// `(name, trim(value))` for each declaration.
pub open spec fn normalized(es: Seq<(Seq<char>, Seq<char>)>) -> Seq<(Seq<char>, Seq<char>)> {
    es.map_values(|e: (Seq<char>, Seq<char>)| (e.0, trim(e.1)))
}

/// The index of the first declaration named `name`, or `-1`.
pub open spec fn find_entry(es: Seq<(Seq<char>, Seq<char>)>, name: Seq<char>) -> int
    decreases es.len(),
{
    if es.len() == 0 {
        -1
    } else if es[0].0 == name {
        0
    } else {
        let r = find_entry(es.drop_first(), name);
        if r < 0 { -1 } else { r + 1 }
    }
}

/// The declarations of a `style` attribute whose items are `items`: the declarations with
/// trimmed values, or the first syntax error.
pub open spec fn existing_entries(items: Seq<SpecDeclItem>) -> Result<
    Seq<(Seq<char>, Seq<char>)>,
    SpecSyntaxError,
>
    decreases items.len(),
{
    if items.len() == 0 {
        Ok(seq![])
    } else {
        match items[0] {
            SpecDeclItem::Error(e) => Err(e),
            SpecDeclItem::Decl(n, v) => match existing_entries(items.drop_first()) {
                Ok(rest) => Ok(seq![(n, trim(v))] + rest),
                Err(e) => Err(e),
            },
        }
    }
}

/// Adds one new declaration to `(added, existing)`.
pub open spec fn merge_one(
    added: Seq<(Seq<char>, Seq<char>)>,
    existing: Seq<(Seq<char>, Seq<char>)>,
    new: (Seq<char>, Seq<char>),
) -> (Seq<(Seq<char>, Seq<char>)>, Seq<(Seq<char>, Seq<char>)>) {
    let v = trim(new.1);
    let k = find_entry(existing, new.0);
    if ends_with_seq(v, important_marker()) {
        let stripped = trim(v.subrange(0, v.len() - important_marker().len()));
        if k >= 0 {
            if ends_with_seq(existing[k].1, important_marker()) {
                (added, existing)
            } else {
                (added, existing.update(k, (new.0, stripped)))
            }
        } else {
            (added.push((new.0, stripped)), existing)
        }
    } else if k >= 0 {
        (added, existing)
    } else {
        (added.push((new.0, v)), existing)
    }
}

/// The state after adding the new declarations `news`, in order, to `existing`.
pub open spec fn merge_state(
    existing: Seq<(Seq<char>, Seq<char>)>,
    news: Seq<(Seq<char>, Seq<char>)>,
) -> (Seq<(Seq<char>, Seq<char>)>, Seq<(Seq<char>, Seq<char>)>)
    decreases news.len(),
{
    if news.len() == 0 {
        (seq![], existing)
    } else {
        let s = merge_state(existing, news.drop_last());
        merge_one(s.0, s.1, news.last())
    }
}

/// The declarations after the merge: the added ones, then the existing ones.
pub open spec fn merged(
    existing: Seq<(Seq<char>, Seq<char>)>,
    news: Seq<(Seq<char>, Seq<char>)>,
) -> Seq<(Seq<char>, Seq<char>)> {
    merge_state(existing, news).0 + merge_state(existing, news).1
}

/// The new value of a `style` attribute `attr` once `news` are merged into it, or the first
/// syntax error of `attr`.
pub open spec fn merge_style_attribute(
    attr: Seq<char>,
    news: Seq<(Seq<char>, Seq<char>)>,
    minify: bool,
) -> Result<Seq<char>, SpecSyntaxError> {
    match existing_entries(declaration_list(attr)) {
        Ok(es) => Ok(joined(merged(es, news), minify)),
        Err(e) => Err(e),
    }
}

/// Appends `replace_quotes(v)` to `out`.
pub fn push_replacing_quotes(out: &mut String, v: &Vec<char>)
    ensures
        final(out)@ == old(out)@ + replace_quotes(v@),
{
    let mut i: usize = 0;
    while i < v.len()
        invariant
            i <= v.len(),
            out@ == old(out)@ + replace_quotes(v@.subrange(0, i as int)),
        decreases v.len() - i,
    {
        let c = v[i];
        if c == '"' {
            string_push(out, '\'');
        } else {
            string_push(out, c);
        }
        i += 1;
        assert(replace_quotes(v@.subrange(0, i as int)) =~= replace_quotes(
            v@.subrange(0, i - 1),
        ).push(if c == '"' { '\'' } else { c }));
    }
    assert(v@.subrange(0, v.len() as int) == v@);
}

/// Appends the text of one declaration.
pub fn push_entry(out: &mut String, name: &Vec<char>, value: &Vec<char>, minify: bool)
    ensures
        final(out)@ == old(out)@ + entry_text((name@, value@), minify),
{
    let mut i: usize = 0;
    while i < name.len()
        invariant
            i <= name.len(),
            out@ == old(out)@ + name@.subrange(0, i as int),
        decreases name.len() - i,
    {
        string_push(out, name[i]);
        i += 1;
        assert(name@.subrange(0, i as int) =~= name@.subrange(0, i - 1).push(name@[i - 1]));
    }
    assert(name@.subrange(0, name.len() as int) == name@);
    if minify {
        push_str(out, ":");
    } else {
        push_str(out, ": ");
    }
    push_replacing_quotes(out, value);
    assert(final(out)@ =~= old(out)@ + entry_text((name@, value@), minify));
}

/// Appends the declarations joined by `;`.
pub fn push_joined(out: &mut String, es: &Vec<Entry>, minify: bool)
    ensures
        final(out)@ == old(out)@ + joined(entries_view(es@), minify),
{
    let ghost v = entries_view(es@);
    let mut i: usize = 0;
    while i < es.len()
        invariant
            i <= es.len(),
            v == entries_view(es@),
            out@ == old(out)@ + joined(v.subrange(0, i as int), minify),
        decreases es.len() - i,
    {
        if i > 0 {
            string_push(out, ';');
        }
        push_entry(out, &es[i].name, &es[i].value, minify);
        proof {
            let pre = v.subrange(0, i as int);
            let cur = v.subrange(0, i + 1);
            assert(cur.drop_last() =~= pre);
            assert(cur.last() == es@[i as int]@);
            if i == 0 {
                assert(joined(pre, minify) =~= seq![]);
            }
        }
        i += 1;
    }
    assert(v.subrange(0, es.len() as int) =~= v);
}

/// Appends each declaration followed by `;`.
pub fn push_terminated(out: &mut String, es: &Vec<Entry>, minify: bool)
    ensures
        final(out)@ == old(out)@ + terminated(entries_view(es@), minify),
{
    let ghost v = entries_view(es@);
    let mut i: usize = 0;
    while i < es.len()
        invariant
            i <= es.len(),
            v == entries_view(es@),
            out@ == old(out)@ + terminated(v.subrange(0, i as int), minify),
        decreases es.len() - i,
    {
        push_entry(out, &es[i].name, &es[i].value, minify);
        string_push(out, ';');
        proof {
            let pre = v.subrange(0, i as int);
            let cur = v.subrange(0, i + 1);
            assert(cur.drop_last() =~= pre);
            assert(cur.last() == es@[i as int]@);
        }
        i += 1;
    }
    assert(v.subrange(0, es.len() as int) =~= v);
}

/// Appends the value of a fresh `style` attribute holding `es`.
pub fn push_fresh_style(out: &mut String, es: &Vec<Entry>, minify: bool)
    ensures
        final(out)@ == old(out)@ + fresh_style(entries_view(es@), minify),
{
    if minify {
        push_joined(out, es, minify);
    } else {
        push_terminated(out, es, minify);
    }
}

/// `v` with surrounding whitespace removed.
pub fn trimmed(v: &Vec<char>) -> (r: Vec<char>)
    ensures
        r@ == trim(v@),
{
    let (b, e) = trim_bounds(v, 0, v.len());
    let mut r: Vec<char> = Vec::new();
    let mut i = b;
    while i < e
        invariant
            b <= i <= e <= v.len(),
            r@ == v@.subrange(b as int, i as int),
        decreases e - i,
    {
        r.push(v[i]);
        i += 1;
        assert(r@ =~= v@.subrange(b as int, i as int));
    }
    assert(v@.subrange(0, v.len() as int) == v@);
    r
}

/// The index of the first entry named `name`.
pub fn find_entry_exec(es: &Vec<Entry>, name: &Vec<char>) -> (r: Option<usize>)
    ensures
        match r {
            Some(k) => k < es.len() && find_entry(entries_view(es@), name@) == k,
            None => find_entry(entries_view(es@), name@) == -1,
        },
{
    let ghost v = entries_view(es@);
    let mut i: usize = 0;
    assert(v.subrange(0, v.len() as int) =~= v);
    while i < es.len()
        invariant
            i <= es.len(),
            v == entries_view(es@),
            find_entry(v, name@) == (if find_entry(v.subrange(i as int, v.len() as int), name@) < 0 {
                -1
            } else {
                find_entry(v.subrange(i as int, v.len() as int), name@) + i
            }),
        decreases es.len() - i,
    {
        let ghost rest = v.subrange(i as int, v.len() as int);
        assert(rest[0] == es@[i as int]@);
        if chars_eq(&es[i].name, name) {
            return Some(i);
        }
        assert(rest.drop_first() =~= v.subrange(i + 1, v.len() as int));
        i += 1;
    }
    assert(v.subrange(i as int, v.len() as int) =~= seq![]);
    None
}

/// The characters of the important marker.
pub fn important_chars() -> (r: Vec<char>)
    ensures
        r@ == important_marker(),
{
    str_chars("!important")
}

/// Merges the new declarations `news`, in order, into `existing`.
pub fn merge_entries(existing: Vec<Entry>, news: &Vec<Entry>) -> (r: Vec<Entry>)
    ensures
        entries_view(r@) == merged(entries_view(existing@), entries_view(news@)),
{
    let ghost e0 = entries_view(existing@);
    let ghost nv = entries_view(news@);
    let marker = important_chars();
    let mut added: Vec<Entry> = Vec::new();
    let mut current = existing;
    let mut i: usize = 0;
    while i < news.len()
        invariant
            i <= news.len(),
            nv == entries_view(news@),
            marker@ == important_marker(),
            merge_state(e0, nv.subrange(0, i as int)) == (entries_view(added@), entries_view(
                current@,
            )),
        decreases news.len() - i,
    {
        let ghost pre = nv.subrange(0, i as int);
        let ghost cur = nv.subrange(0, i + 1);
        proof {
            assert(cur.drop_last() =~= pre);
            assert(cur.last() == news@[i as int]@);
        }
        let ghost a0 = entries_view(added@);
        let ghost c0 = entries_view(current@);
        let v = trimmed(&news[i].value);
        let k = find_entry_exec(&current, &news[i].name);
        if ends_with(&v, &marker) {
            let mut head: Vec<char> = Vec::new();
            let mut j: usize = 0;
            while j < v.len() - marker.len()
                invariant
                    marker.len() <= v.len(),
                    j <= v.len() - marker.len(),
                    head@ == v@.subrange(0, j as int),
                decreases v.len() - marker.len() - j,
            {
                head.push(v[j]);
                j += 1;
                assert(head@ =~= v@.subrange(0, j as int));
            }
            let stripped = trimmed(&head);
            match k {
                Some(k) => {
                    if !ends_with(&current[k].value, &marker) {
                        let name = news[i].name.clone();
                        assert(name@ == news[i as int].name@);
                        current.set(k, Entry { name, value: stripped });
                        proof {
                            assert(entries_view(current@) =~= c0.update(
                                k as int,
                                (nv[i as int].0, stripped@),
                            ));
                        }
                    }
                },
                None => {
                    let name = news[i].name.clone();
                    assert(name@ == news[i as int].name@);
                    added.push(Entry { name, value: stripped });
                    proof {
                        assert(entries_view(added@) =~= a0.push((nv[i as int].0, stripped@)));
                    }
                },
            }
        } else {
            match k {
                Some(_) => {},
                None => {
                    let name = news[i].name.clone();
                    assert(name@ == news[i as int].name@);
                    added.push(Entry { name, value: v });
                    proof {
                        assert(entries_view(added@) =~= a0.push((nv[i as int].0, trim(nv[i as int].1))));
                    }
                },
            }
        }
        i += 1;
    }
    assert(nv.subrange(0, news.len() as int) =~= nv);
    let ghost a = entries_view(added@);
    let ghost c = entries_view(current@);
    let mut out = added;
    let n = current.len();
    let mut idx: usize = 0;
    while idx < n
        invariant
            idx <= n == current.len(),
            c == entries_view(current@),
            entries_view(out@) == a + c.subrange(0, idx as int),
        decreases n - idx,
    {
        let name = current[idx].name.clone();
        let value = current[idx].value.clone();
        assert(name@ == current[idx as int].name@);
        assert(value@ == current[idx as int].value@);
        let ghost before = entries_view(out@);
        out.push(Entry { name, value });
        assert(entries_view(out@) =~= before.push(c[idx as int]));
        idx += 1;
        assert(a + c.subrange(0, idx as int) =~= before.push(c[idx - 1]));
    }
    assert(c.subrange(0, n as int) =~= c);
    out
}

/// The declarations of a `style` attribute with trimmed values, or its first syntax error.
pub fn existing_entries_exec(attr: &Vec<char>) -> (r: Result<Vec<Entry>, SyntaxError>)
    requires
        attr.len() < usize::MAX,
    ensures
        match (r, existing_entries(declaration_list(attr@))) {
            (Ok(es), Ok(v)) => entries_view(es@) == v,
            (Err(e), Err(v)) => e@ == v,
            _ => false,
        },
{
    let items = parse_declaration_list(attr);
    let ghost iv = items@.map_values(|d: DeclItem| d@);
    let mut out: Vec<Entry> = Vec::new();
    let mut rest = items;
    // Items are consumed from the back; the entries are then reversed into place.
    let n = rest.len();
    let mut rev: Vec<Entry> = Vec::new();
    let mut first_error: Option<SyntaxError> = None;
    let mut k: usize = n;
    while k > 0
        invariant
            k <= n == iv.len(),
            rest.len() == k,
            rest@.map_values(|d: DeclItem| d@) == iv.subrange(0, k as int),
            match first_error {
                Some(e) => existing_entries(iv.subrange(k as int, n as int)) == Err::<
                    Seq<(Seq<char>, Seq<char>)>,
                    SpecSyntaxError,
                >(e@),
                None => existing_entries(iv.subrange(k as int, n as int)) == Ok::<
                    Seq<(Seq<char>, Seq<char>)>,
                    SpecSyntaxError,
                >(entries_view(rev@).reverse()),
            },
        decreases k,
    {
        let ghost old_rest = rest@;
        assert(old_rest.map_values(|d: DeclItem| d@)[k - 1] == old_rest[k - 1]@);
        let item = rest.pop().unwrap();
        assert(item == old_rest[k - 1]);
        let ghost tail = iv.subrange(k as int, n as int);
        let ghost whole = iv.subrange(k - 1, n as int);
        assert(whole[0] == item@);
        assert(whole.drop_first() =~= tail);
        assert(rest@.map_values(|d: DeclItem| d@) =~= iv.subrange(0, k - 1));
        match item {
            DeclItem::Error(e) => {
                first_error = Some(e);
            },
            DeclItem::Decl(d) => {
                let name = str_chars(d.name.as_str());
                let raw = str_chars(d.value.as_str());
                let value = trimmed(&raw);
                let ghost before = entries_view(rev@);
                rev.push(Entry { name, value });
                proof {
                    assert(entries_view(rev@) =~= before.push((d.name@, trim(d.value@))));
                    assert(entries_view(rev@).reverse() =~= seq![(d.name@, trim(d.value@))]
                        + before.reverse());
                }
            },
        }
        k -= 1;
    }
    assert(iv.subrange(0, n as int) =~= iv);
    match first_error {
        Some(e) => Err(e),
        None => {
            let mut j: usize = rev.len();
            let ghost rv = entries_view(rev@);
            while j > 0
                invariant
                    j == rev.len(),
                    j <= rv.len(),
                    entries_view(rev@) == rv.subrange(0, j as int),
                    entries_view(out@) == rv.reverse().subrange(0, rv.len() - j),
                decreases j,
            {
                let ghost before = entries_view(out@);
                let e = rev.pop().unwrap();
                assert(e@ == rv.subrange(0, j as int)[j - 1]);
                out.push(e);
                assert(entries_view(out@) =~= before.push(e@));
                assert(rv.reverse()[rv.len() - j] == rv[j - 1]);
                j -= 1;
                assert(entries_view(rev@) =~= rv.subrange(0, j as int));
                assert(entries_view(out@) =~= rv.reverse().subrange(0, rv.len() - j));
            }
            assert(rv.reverse().subrange(0, rv.len() as int) =~= rv.reverse());
            Ok(out)
        },
    }
}

/// Writes the new value of the `style` attribute `attr` once `news` are merged into it.
pub fn merge_styles(out: &mut String, attr: &str, news: &Vec<Entry>, minify: bool) -> (r: Result<
    (),
    SyntaxError,
>)
    requires
        attr@.len() < usize::MAX,
    ensures
        match (r, merge_style_attribute(attr@, entries_view(news@), minify)) {
            (Ok(()), Ok(text)) => final(out)@ == old(out)@ + text,
            (Err(e), Err(v)) => e@ == v,
            _ => false,
        },
{
    let chars = str_chars(attr);
    match existing_entries_exec(&chars) {
        Ok(existing) => {
            let all = merge_entries(existing, news);
            push_joined(out, &all, minify);
            Ok(())
        },
        Err(e) => Err(e),
    }
}

} // verus!
