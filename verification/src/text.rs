//! Text helpers: character-level views of strings and the whitespace classes that the
//! inliner relies on.
use vstd::prelude::*;

verus! {

/// Unicode `White_Space`, the class that `char::is_whitespace` and `str::trim` use.
pub open spec fn is_unicode_ws(c: char) -> bool {
    ||| ('\u{9}' <= c && c <= '\u{d}')
    ||| c == ' '
    ||| c == '\u{85}'
    ||| c == '\u{a0}'
    ||| c == '\u{1680}'
    ||| ('\u{2000}' <= c && c <= '\u{200a}')
    ||| c == '\u{2028}'
    ||| c == '\u{2029}'
    ||| c == '\u{202f}'
    ||| c == '\u{205f}'
    ||| c == '\u{3000}'
}

/// Whitespace in the CSS syntax: space, tab, and the three newline characters.
pub open spec fn is_css_ws(c: char) -> bool {
    c == ' ' || c == '\t' || c == '\n' || c == '\r' || c == '\u{c}'
}

pub fn unicode_ws(c: char) -> (r: bool)
    ensures
        r == is_unicode_ws(c),
{
    ('\u{9}' <= c && c <= '\u{d}') || c == ' ' || c == '\u{85}' || c == '\u{a0}' || c == '\u{1680}'
        || ('\u{2000}' <= c && c <= '\u{200a}') || c == '\u{2028}' || c == '\u{2029}' || c
        == '\u{202f}' || c == '\u{205f}' || c == '\u{3000}'
}

pub fn css_ws(c: char) -> (r: bool)
    ensures
        r == is_css_ws(c),
{
    c == ' ' || c == '\t' || c == '\n' || c == '\r' || c == '\u{c}'
}

/// Number of leading characters of `s` that are Unicode whitespace.
pub open spec fn leading_ws(s: Seq<char>) -> nat
    decreases s.len(),
{
    if s.len() > 0 && is_unicode_ws(s[0]) {
        1 + leading_ws(s.drop_first())
    } else {
        0
    }
}

/// Number of trailing characters of `s` that are Unicode whitespace.
pub open spec fn trailing_ws(s: Seq<char>) -> nat
    decreases s.len(),
{
    if s.len() > 0 && is_unicode_ws(s.last()) {
        1 + trailing_ws(s.drop_last())
    } else {
        0
    }
}

/// `str::trim_end`.
pub open spec fn trim_end(s: Seq<char>) -> Seq<char> {
    s.subrange(0, s.len() - trailing_ws(s))
}

/// `str::trim_start`.
pub open spec fn trim_start(s: Seq<char>) -> Seq<char> {
    s.subrange(leading_ws(s) as int, s.len() as int)
}

/// `str::trim`.
pub open spec fn trim(s: Seq<char>) -> Seq<char> {
    trim_start(trim_end(s))
}

pub proof fn lemma_leading_ws_bound(s: Seq<char>)
    ensures
        leading_ws(s) <= s.len(),
        forall|i: int| 0 <= i < leading_ws(s) ==> is_unicode_ws(#[trigger] s[i]),
        leading_ws(s) < s.len() ==> !is_unicode_ws(s[leading_ws(s) as int]),
    decreases s.len(),
{
    if s.len() > 0 && is_unicode_ws(s[0]) {
        lemma_leading_ws_bound(s.drop_first());
        assert forall|i: int| 0 <= i < leading_ws(s) implies is_unicode_ws(#[trigger] s[i]) by {
            if i > 0 {
                assert(s[i] == s.drop_first()[i - 1]);
            }
        }
        if leading_ws(s) < s.len() {
            assert(s[leading_ws(s) as int] == s.drop_first()[leading_ws(s.drop_first()) as int]);
        }
    }
}

pub proof fn lemma_trailing_ws_bound(s: Seq<char>)
    ensures
        trailing_ws(s) <= s.len(),
        forall|i: int| s.len() - trailing_ws(s) <= i < s.len() ==> is_unicode_ws(#[trigger] s[i]),
        trailing_ws(s) < s.len() ==> !is_unicode_ws(s[s.len() - trailing_ws(s) - 1]),
    decreases s.len(),
{
    if s.len() > 0 && is_unicode_ws(s.last()) {
        lemma_trailing_ws_bound(s.drop_last());
        assert forall|i: int| s.len() - trailing_ws(s) <= i < s.len() implies is_unicode_ws(
            #[trigger] s[i],
        ) by {
            if i < s.len() - 1 {
                assert(s[i] == s.drop_last()[i]);
            }
        }
        if trailing_ws(s) < s.len() {
            assert(s[s.len() - trailing_ws(s) - 1] == s.drop_last()[s.drop_last().len()
                - trailing_ws(s.drop_last()) - 1]);
        }
    }
}

/// Characterises `leading_ws` by the position of the first non-whitespace character.
pub proof fn lemma_leading_ws_is(s: Seq<char>, k: int)
    requires
        0 <= k <= s.len(),
        forall|i: int| 0 <= i < k ==> is_unicode_ws(#[trigger] s[i]),
        k < s.len() ==> !is_unicode_ws(s[k]),
    ensures
        leading_ws(s) == k,
    decreases k,
{
    if k > 0 {
        assert(is_unicode_ws(s[0]));
        assert forall|i: int| 0 <= i < k - 1 implies is_unicode_ws(#[trigger] s.drop_first()[i]) by {
            assert(s.drop_first()[i] == s[i + 1]);
        }
        if k - 1 < s.drop_first().len() {
            assert(s.drop_first()[k - 1] == s[k]);
        }
        lemma_leading_ws_is(s.drop_first(), k - 1);
    } else {
        if s.len() > 0 {
            assert(!is_unicode_ws(s[0]));
        }
    }
}

/// Characterises `trailing_ws` by the position of the last non-whitespace character.
pub proof fn lemma_trailing_ws_is(s: Seq<char>, k: int)
    requires
        0 <= k <= s.len(),
        forall|i: int| k <= i < s.len() ==> is_unicode_ws(#[trigger] s[i]),
        k > 0 ==> !is_unicode_ws(s[k - 1]),
    ensures
        trailing_ws(s) == s.len() - k,
    decreases s.len() - k,
{
    if k < s.len() {
        assert(is_unicode_ws(s.last()));
        assert forall|i: int| k <= i < s.drop_last().len() implies is_unicode_ws(
            #[trigger] s.drop_last()[i],
        ) by {
            assert(s.drop_last()[i] == s[i]);
        }
        if k > 0 {
            assert(s.drop_last()[k - 1] == s[k - 1]);
        }
        lemma_trailing_ws_is(s.drop_last(), k);
    } else {
        if s.len() > 0 {
            assert(!is_unicode_ws(s[s.len() - 1]));
        }
    }
}

/// The characters of a string slice.
pub fn str_chars(s: &str) -> (v: Vec<char>)
    ensures
        v@ == s@,
{
    broadcast use vstd::string::group_string_axioms;

    let mut v: Vec<char> = Vec::new();
    for c in iter: s.chars()
        invariant
            v@ == iter.seq().take(iter.index() as int),
            iter.seq() == s@,
    {
        v.push(c);
    }
    v
}

/// `String::push`: appends one character to a string.
#[verifier::external_body]
pub(crate) fn string_push(s: &mut String, c: char)
    ensures
        final(s)@ == old(s)@.push(c),
{
    s.push(c);
}

/// Appends `v[lo..hi]` to `out`.
pub fn push_range(out: &mut String, v: &Vec<char>, lo: usize, hi: usize)
    requires
        lo <= hi <= v.len(),
    ensures
        final(out)@ == old(out)@ + v@.subrange(lo as int, hi as int),
{
    let mut i = lo;
    while i < hi
        invariant
            lo <= i <= hi <= v.len(),
            out@ == old(out)@ + v@.subrange(lo as int, i as int),
        decreases hi - i,
    {
        string_push(out, v[i]);
        i += 1;
        assert(v@.subrange(lo as int, i as int) == v@.subrange(lo as int, i - 1) + seq![v@[i - 1]]);
    }
}

/// Appends all characters of `v` to `out`.
pub fn push_all(out: &mut String, v: &Vec<char>)
    ensures
        final(out)@ == old(out)@ + v@,
{
    push_range(out, v, 0, v.len());
    assert(v@.subrange(0, v.len() as int) == v@);
}

/// A string made of `v[lo..hi]`.
pub fn range_string(v: &Vec<char>, lo: usize, hi: usize) -> (s: String)
    requires
        lo <= hi <= v.len(),
    ensures
        s@ == v@.subrange(lo as int, hi as int),
{
    let mut s = String::new();
    push_range(&mut s, v, lo, hi);
    s
}

/// Appends the characters of `lit` to `out`.
pub fn push_str(out: &mut String, lit: &str)
    ensures
        final(out)@ == old(out)@ + lit@,
{
    out.append(lit);
}

/// Whether `a[lo..hi]` equals `b`.
pub fn range_eq(a: &Vec<char>, lo: usize, hi: usize, b: &Vec<char>) -> (r: bool)
    requires
        lo <= hi <= a.len(),
    ensures
        r == (a@.subrange(lo as int, hi as int) == b@),
{
    if hi - lo != b.len() {
        return false;
    }
    let mut i: usize = 0;
    while i < b.len()
        invariant
            lo <= hi <= a.len(),
            hi - lo == b.len(),
            i <= b.len(),
            forall|j: int| 0 <= j < i ==> a@[lo + j] == b@[j],
        decreases b.len() - i,
    {
        if a[lo + i] != b[i] {
            assert(a@.subrange(lo as int, hi as int)[i as int] != b@[i as int]);
            return false;
        }
        i += 1;
    }
    assert(a@.subrange(lo as int, hi as int) =~= b@);
    true
}

/// Whether two character vectors are equal.
pub fn chars_eq(a: &Vec<char>, b: &Vec<char>) -> (r: bool)
    ensures
        r == (a@ == b@),
{
    let r = range_eq(a, 0, a.len(), b);
    assert(a@.subrange(0, a.len() as int) == a@);
    r
}

/// Whether the string `s` consists of exactly the characters of `lit`.
pub fn string_is(s: &String, lit: &str) -> (r: bool)
    ensures
        r == (s@ == lit@),
{
    let a = str_chars(s.as_str());
    let b = str_chars(lit);
    chars_eq(&a, &b)
}

/// Whether `a[lo..]` starts with `b`.
pub fn has_prefix_at(a: &Vec<char>, lo: usize, b: &Vec<char>) -> (r: bool)
    requires
        lo <= a.len(),
    ensures
        r == (lo + b.len() <= a.len() && a@.subrange(lo as int, lo + b.len()) == b@),
{
    if b.len() > a.len() - lo {
        return false;
    }
    range_eq(a, lo, lo + b.len(), b)
}

/// Whether `a` starts with `b`.
pub fn starts_with(a: &Vec<char>, b: &Vec<char>) -> (r: bool)
    ensures
        r == (b.len() <= a.len() && a@.subrange(0, b.len() as int) == b@),
{
    has_prefix_at(a, 0, b)
}

/// Whether `a` ends with `b`.
pub fn ends_with(a: &Vec<char>, b: &Vec<char>) -> (r: bool)
    ensures
        r == (b.len() <= a.len() && a@.subrange(a.len() - b.len(), a.len() as int) == b@),
{
    if b.len() > a.len() {
        return false;
    }
    range_eq(a, a.len() - b.len(), a.len(), b)
}

/// The bounds `[lo', hi')` of `v[lo..hi]` with surrounding Unicode whitespace removed.
pub fn trim_bounds(v: &Vec<char>, lo: usize, hi: usize) -> (r: (usize, usize))
    requires
        lo <= hi <= v.len(),
    ensures
        lo <= r.0 <= r.1 <= hi,
        v@.subrange(r.0 as int, r.1 as int) == trim(v@.subrange(lo as int, hi as int)),
{
    let ghost s = v@.subrange(lo as int, hi as int);
    let mut e = hi;
    while e > lo && unicode_ws(v[e - 1])
        invariant
            lo <= e <= hi <= v.len(),
            forall|i: int| e <= i < hi ==> is_unicode_ws(#[trigger] v@[i]),
        decreases e,
    {
        e -= 1;
    }
    proof {
        assert forall|i: int| e - lo <= i < s.len() implies is_unicode_ws(#[trigger] s[i]) by {
            assert(s[i] == v@[lo + i]);
        }
        if e > lo {
            assert(s[e - lo - 1] == v@[e - 1]);
        }
        lemma_trailing_ws_is(s, e - lo);
        assert(trim_end(s) == v@.subrange(lo as int, e as int));
    }
    let ghost t = v@.subrange(lo as int, e as int);
    let mut b = lo;
    while b < e && unicode_ws(v[b])
        invariant
            lo <= b <= e <= hi <= v.len(),
            forall|i: int| lo <= i < b ==> is_unicode_ws(#[trigger] v@[i]),
        decreases e - b,
    {
        b += 1;
    }
    proof {
        assert forall|i: int| 0 <= i < b - lo implies is_unicode_ws(#[trigger] t[i]) by {
            assert(t[i] == v@[lo + i]);
        }
        if b < e {
            assert(t[b - lo] == v@[b as int]);
        }
        lemma_leading_ws_is(t, b - lo);
        assert(trim_start(t) =~= v@.subrange(b as int, e as int));
    }
    (b, e)
}

} // verus!
