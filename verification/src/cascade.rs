//! The cascade: which declaration wins for each property of each element.
//!
//! Each selector of each rule is applied in stylesheet order to the elements it matches,
//! with the rank of its specificity (how many selectors are strictly less specific). For a
//! property that an element already has from an earlier selector, the new declaration wins
//! when both or neither are `!important` and the new selector is at least as specific, or
//! when only the new one is `!important`. A property keeps the position where it was first
//! set. When written, an element's declarations are ordered by rank, stably.
use vstd::prelude::*;
use crate::declarations::{ends_with_seq, entries_view, important_marker, important_chars, Entry};

use crate::text::{chars_eq, range_eq, trim_end, lemma_trailing_ws_is, unicode_ws};


verus! {

/// A declaration applied to an element, with the rank of the selector that applied it.
pub struct StyleEntry {
    pub name: Vec<char>,
    pub value: Vec<char>,
    pub rank: u32,
}

impl View for StyleEntry {
    type V = (Seq<char>, Seq<char>, int);

    open spec fn view(&self) -> (Seq<char>, Seq<char>, int) {
        (self.name@, self.value@, self.rank as int)
    }
}

/// One selector of one rule: the index of the rule, the rank of the selector's specificity,
/// and for each element whether the selector matches it.
pub struct Application {
    pub rule: usize,
    pub rank: u32,
    pub matched: Vec<bool>,
}

impl View for Application {
    type V = (int, int, Seq<bool>);

    open spec fn view(&self) -> (int, int, Seq<bool>) {
        (self.rule as int, self.rank as int, self.matched@)
    }
}

pub open spec fn styled_view(es: Seq<StyleEntry>) -> Seq<(Seq<char>, Seq<char>, int)> {
    es.map_values(|e: StyleEntry| e@)
}

pub open spec fn opt_styled(o: Option<Vec<StyleEntry>>) -> Option<Seq<(Seq<char>, Seq<char>, int)>> {
    match o {
        Some(v) => Some(styled_view(v@)),
        None => None,
    }
}

pub open spec fn rules_view(rules: Seq<Vec<Entry>>) -> Seq<Seq<(Seq<char>, Seq<char>)>> {
    rules.map_values(|r: Vec<Entry>| entries_view(r@))
}

pub open spec fn apps_view(apps: Seq<Application>) -> Seq<(int, int, Seq<bool>)> {
    apps.map_values(|a: Application| a@)
}

/// A value is important when, without trailing whitespace, it ends with `!important`.
pub open spec fn is_important_value(v: Seq<char>) -> bool {
    ends_with_seq(trim_end(v), important_marker())
}

/// The index of the first entry named `name`, or `-1`.
pub open spec fn find_styled(es: Seq<(Seq<char>, Seq<char>, int)>, name: Seq<char>) -> int
    decreases es.len(),
{
    if es.len() == 0 {
        -1
    } else if es[0].0 == name {
        0
    } else {
        let r = find_styled(es.drop_first(), name);
        if r < 0 { -1 } else { r + 1 }
    }
}

/// Whether a declaration of rank `new_rank` replaces the entry `old`.
pub open spec fn wins(new_value: Seq<char>, new_rank: int, old: (Seq<char>, Seq<char>, int)) -> bool {
    let ni = is_important_value(new_value);
    let oi = is_important_value(old.1);
    (ni == oi && old.2 <= new_rank) || (ni && !oi)
}

/// The entries of an element after a declaration of rank `rank` is applied.
pub open spec fn apply_decl(
    es: Seq<(Seq<char>, Seq<char>, int)>,
    d: (Seq<char>, Seq<char>),
    rank: int,
) -> Seq<(Seq<char>, Seq<char>, int)> {
    let k = find_styled(es, d.0);
    if k < 0 {
        es.push((d.0, d.1, rank))
    } else if wins(d.1, rank, es[k]) {
        es.update(k, (d.0, d.1, rank))
    } else {
        es
    }
}

/// The entries of an element after the declarations `ds` are applied in order.
pub open spec fn apply_decls(
    es: Seq<(Seq<char>, Seq<char>, int)>,
    ds: Seq<(Seq<char>, Seq<char>)>,
    rank: int,
) -> Seq<(Seq<char>, Seq<char>, int)>
    decreases ds.len(),
{
    if ds.len() == 0 {
        es
    } else {
        apply_decl(apply_decls(es, ds.drop_last(), rank), ds.last(), rank)
    }
}

/// The entries of element `e` after the applications `apps`, or `None` when no selector
/// matched it.
pub open spec fn element_style(
    apps: Seq<(int, int, Seq<bool>)>,
    rules: Seq<Seq<(Seq<char>, Seq<char>)>>,
    e: int,
) -> Option<Seq<(Seq<char>, Seq<char>, int)>>
    decreases apps.len(),
{
    if apps.len() == 0 {
        None
    } else {
        let prev = element_style(apps.drop_last(), rules, e);
        let a = apps.last();
        if 0 <= e < a.2.len() && a.2[e] && 0 <= a.0 < rules.len() {
            Some(
                apply_decls(
                    match prev {
                        Some(p) => p,
                        None => seq![],
                    },
                    rules[a.0],
                    a.1,
                ),
            )
        } else {
            prev
        }
    }
}

/// Whether `v` is important.
pub fn important_value(v: &Vec<char>, marker: &Vec<char>) -> (r: bool)
    requires
        marker@ == important_marker(),
    ensures
        r == is_important_value(v@),
{
    let mut e = v.len();
    loop
        invariant
            e <= v.len(),
            forall|i: int| e <= i < v.len() ==> crate::text::is_unicode_ws(#[trigger] v@[i]),
        ensures
            e <= v.len(),
            forall|i: int| e <= i < v.len() ==> crate::text::is_unicode_ws(#[trigger] v@[i]),
            e > 0 ==> !crate::text::is_unicode_ws(v@[e - 1]),
        decreases e,
    {
        if e == 0 {
            break;
        }
        if !unicode_ws(v[e - 1]) {
            break;
        }
        e -= 1;
    }
    proof {
        lemma_trailing_ws_is(v@, e as int);
        assert(trim_end(v@) =~= v@.subrange(0, e as int));
    }
    if marker.len() > e {
        return false;
    }
    let r = range_eq(v, e - marker.len(), e, marker);
    proof {
        assert(trim_end(v@).subrange(e - marker.len(), e as int) =~= v@.subrange(
            e - marker.len(),
            e as int,
        ));
    }
    r
}

/// The index of the first entry named `name`.
pub fn find_styled_exec(es: &Vec<StyleEntry>, name: &Vec<char>) -> (r: Option<usize>)
    ensures
        match r {
            Some(k) => k < es.len() && find_styled(styled_view(es@), name@) == k,
            None => find_styled(styled_view(es@), name@) == -1,
        },
{
    let ghost v = styled_view(es@);
    let mut i: usize = 0;
    assert(v.subrange(0, v.len() as int) =~= v);
    while i < es.len()
        invariant
            i <= es.len(),
            v == styled_view(es@),
            find_styled(v, name@) == (if find_styled(v.subrange(i as int, v.len() as int), name@)
                < 0 {
                -1
            } else {
                find_styled(v.subrange(i as int, v.len() as int), name@) + i
            }),
        decreases es.len() - i,
    {
        let ghost rest = v.subrange(i as int, v.len() as int);
        assert(rest[0] == es@[i as int]@);
        if chars_eq(&es[i].name, name) {
            return Some(i);
        }
        assert(rest.drop_first() =~= v.subrange(i + 1, v.len() as int));
        i += 1;
    }
    assert(v.subrange(i as int, v.len() as int) =~= Seq::<(Seq<char>, Seq<char>, int)>::empty());
    None
}

/// Applies the declarations `ds` of rank `rank` to the entries `es`.
pub fn apply_declarations(es: &mut Vec<StyleEntry>, ds: &Vec<Entry>, rank: u32, marker: &Vec<char>)
    requires
        marker@ == important_marker(),
    ensures
        styled_view(final(es)@) == apply_decls(styled_view(old(es)@), entries_view(ds@), rank as int),
{
    let ghost dv = entries_view(ds@);
    let mut i: usize = 0;
    assert(dv.subrange(0, 0) =~= Seq::<(Seq<char>, Seq<char>)>::empty());
    while i < ds.len()
        invariant
            i <= ds.len(),
            dv == entries_view(ds@),
            marker@ == important_marker(),
            styled_view(es@) == apply_decls(styled_view(old(es)@), dv.subrange(0, i as int), rank as int),
        decreases ds.len() - i,
    {
        let ghost before = styled_view(es@);
        proof {
            let cur = dv.subrange(0, i + 1);
            assert(cur.drop_last() =~= dv.subrange(0, i as int));
            assert(cur.last() == ds@[i as int]@);
        }
        let d = &ds[i];
        match find_styled_exec(es, &d.name) {
            None => {
                es.push(StyleEntry { name: d.name.clone(), value: d.value.clone(), rank });
                assert(styled_view(es@) =~= before.push((d.name@, d.value@, rank as int)));
            },
            Some(k) => {
                let ni = important_value(&d.value, marker);
                let oi = important_value(&es[k].value, marker);
                if (ni == oi && es[k].rank <= rank) || (ni && !oi) {
                    es.set(k, StyleEntry { name: d.name.clone(), value: d.value.clone(), rank });
                    assert(styled_view(es@) =~= before.update(
                        k as int,
                        (d.name@, d.value@, rank as int),
                    ));
                }
            },
        }
        i += 1;
    }
    assert(dv.subrange(0, ds.len() as int) =~= dv);
}

/// The entries of each of `n` elements after all the applications, in order.
pub fn cascade(n: usize, apps: &Vec<Application>, rules: &Vec<Vec<Entry>>) -> (r: Vec<
    Option<Vec<StyleEntry>>,
>)
    ensures
        r.len() == n,
        forall|e: int|
            0 <= e < n ==> opt_styled(#[trigger] r@[e]) == element_style(
                apps_view(apps@),
                rules_view(rules@),
                e,
            ),
{
    let ghost av = apps_view(apps@);
    let ghost rv = rules_view(rules@);
    let marker = important_chars();
    let mut r: Vec<Option<Vec<StyleEntry>>> = Vec::new();
    let mut e: usize = 0;
    while e < n
        invariant
            e <= n,
            r.len() == e,
            forall|k: int| 0 <= k < e ==> (#[trigger] r@[k]) is None,
        decreases n - e,
    {
        r.push(None);
        e += 1;
    }
    let mut i: usize = 0;
    while i < apps.len()
        invariant
            i <= apps.len(),
            av == apps_view(apps@),
            rv == rules_view(rules@),
            marker@ == important_marker(),
            r.len() == n,
            forall|k: int|
                0 <= k < n ==> opt_styled(#[trigger] r@[k]) == element_style(
                    av.subrange(0, i as int),
                    rv,
                    k,
                ),
        decreases apps.len() - i,
    {
        proof {
            let cur = av.subrange(0, i + 1);
            assert(cur.drop_last() =~= av.subrange(0, i as int));
            assert(cur.last() == apps@[i as int]@);
        }
        let app = &apps[i];
        let mut k: usize = 0;
        while k < n
            invariant
                i < apps.len(),
                app == &apps@[i as int],
                av == apps_view(apps@),
                rv == rules_view(rules@),
                marker@ == important_marker(),
                r.len() == n,
                k <= n,
                forall|j: int|
                    0 <= j < k ==> opt_styled(#[trigger] r@[j]) == element_style(
                        av.subrange(0, i + 1),
                        rv,
                        j,
                    ),
                forall|j: int|
                    k <= j < n ==> opt_styled(#[trigger] r@[j]) == element_style(
                        av.subrange(0, i as int),
                        rv,
                        j,
                    ),
            decreases n - k,
        {
            let ghost cur_apps = av.subrange(0, i + 1);
            let ghost prev_k = opt_styled(r@[k as int]);
            let ghost r0 = r@;
            proof {
                assert(cur_apps.drop_last() =~= av.subrange(0, i as int));
                assert(cur_apps.last() == app@);
                assert(prev_k == element_style(av.subrange(0, i as int), rv, k as int));
            }
            if k < app.matched.len() && app.matched[k] && app.rule < rules.len() {
                let mut cur: Option<Vec<StyleEntry>> = None;
                std::mem::swap(&mut cur, &mut r[k]);
                assert(cur == r0[k as int]);
                let mut es = match cur {
                    Some(v) => v,
                    None => Vec::new(),
                };
                assert(styled_view(es@) =~= match prev_k {
                    Some(p) => p,
                    None => Seq::<(Seq<char>, Seq<char>, int)>::empty(),
                });
                assert(rules@[app.rule as int]@.map_values(|e: Entry| e@) == rv[app.rule as int]);
                apply_declarations(&mut es, &rules[app.rule], app.rank, &marker);
                r.set(k, Some(es));
                proof {
                    assert(opt_styled(r@[k as int]) == element_style(cur_apps, rv, k as int));
                    assert forall|j: int| 0 <= j < n && j != k implies r@[j] == r0[j] by {}
                }
            } else {
                assert(element_style(cur_apps, rv, k as int) == prev_k);
            }
            k += 1;
        }
        i += 1;
    }
    assert(av.subrange(0, apps.len() as int) =~= av);
    r
}

/// The entries of rank `rank`, in order, without their rank.
pub open spec fn with_rank(es: Seq<(Seq<char>, Seq<char>, int)>, rank: int) -> Seq<
    (Seq<char>, Seq<char>),
>
    decreases es.len(),
{
    if es.len() == 0 {
        seq![]
    } else {
        with_rank(es.drop_last(), rank) + if es.last().2 == rank {
            seq![(es.last().0, es.last().1)]
        } else {
            seq![]
        }
    }
}

/// The entries of rank below `bound`, ordered by rank and, within a rank, as they were.
pub open spec fn sorted_below(es: Seq<(Seq<char>, Seq<char>, int)>, bound: int) -> Seq<
    (Seq<char>, Seq<char>),
>
    decreases bound,
{
    if bound <= 0 {
        seq![]
    } else {
        sorted_below(es, bound - 1) + with_rank(es, bound - 1)
    }
}

/// One more than the largest rank, or 0.
pub open spec fn rank_bound(es: Seq<(Seq<char>, Seq<char>, int)>) -> int
    decreases es.len(),
{
    if es.len() == 0 {
        0
    } else {
        let r = rank_bound(es.drop_last());
        if es.last().2 + 1 > r { es.last().2 + 1 } else { r }
    }
}

/// The entries ordered by rank, stably.
pub open spec fn sorted_by_rank(es: Seq<(Seq<char>, Seq<char>, int)>) -> Seq<(Seq<char>, Seq<char>)> {
    sorted_below(es, rank_bound(es))
}

/// Orders entries by rank, stably.
pub fn sort_by_rank(es: &Vec<StyleEntry>) -> (r: Vec<Entry>)
    ensures
        entries_view(r@) == sorted_by_rank(styled_view(es@)),
{
    let ghost v = styled_view(es@);
    let mut bound: u64 = 0;
    let mut i: usize = 0;
    assert(v.subrange(0, 0) =~= Seq::<(Seq<char>, Seq<char>, int)>::empty());
    while i < es.len()
        invariant
            i <= es.len(),
            v == styled_view(es@),
            bound == rank_bound(v.subrange(0, i as int)),
            bound <= u32::MAX + 1,
        decreases es.len() - i,
    {
        proof {
            let cur = v.subrange(0, i + 1);
            assert(cur.drop_last() =~= v.subrange(0, i as int));
        }
        if es[i].rank as u64 >= bound {
            bound = es[i].rank as u64 + 1;
        }
        i += 1;
    }
    assert(v.subrange(0, es.len() as int) =~= v);
    let mut out: Vec<Entry> = Vec::new();
    let mut rank: u64 = 0;
    while rank < bound
        invariant
            rank <= bound <= u32::MAX + 1,
            v == styled_view(es@),
            entries_view(out@) == sorted_below(v, rank as int),
        decreases bound - rank,
    {
        let mut j: usize = 0;
        let ghost base = entries_view(out@);
        assert(v.subrange(0, 0) =~= Seq::<(Seq<char>, Seq<char>, int)>::empty());
        while j < es.len()
            invariant
                j <= es.len(),
                v == styled_view(es@),
                entries_view(out@) == base + with_rank(v.subrange(0, j as int), rank as int),
            decreases es.len() - j,
        {
            proof {
                let cur = v.subrange(0, j + 1);
                assert(cur.drop_last() =~= v.subrange(0, j as int));
                assert(cur.last() == es@[j as int]@);
            }
            let ghost before = entries_view(out@);
            if es[j].rank as u64 == rank {
                out.push(Entry { name: es[j].name.clone(), value: es[j].value.clone() });
                assert(entries_view(out@) =~= before.push((es@[j as int].name@, es@[j as int].value@)));
                assert(base + with_rank(v.subrange(0, j + 1), rank as int) =~= before + seq![
                    (es@[j as int].name@, es@[j as int].value@),
                ]);
            } else {
                assert(base + with_rank(v.subrange(0, j + 1), rank as int) =~= before + Seq::<
                    (Seq<char>, Seq<char>),
                >::empty());
            }
            j += 1;
        }
        assert(v.subrange(0, es.len() as int) =~= v);
        rank += 1;
    }
    out
}

} // verus!
