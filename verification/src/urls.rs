//! Locations of linked stylesheets, made absolute against a base URL with the `url` crate.
use vstd::prelude::*;
use crate::text::{push_str, str_chars, starts_with, string_push};

verus! {

#[verifier::external_type_specification]
#[verifier::external_body]
pub struct ExUrl(url::Url);

/// Whether `url::Url::parse` accepts a string; it depends on the string alone.
pub uninterp spec fn url_is_valid(s: Seq<char>) -> bool;

/// What `url::Url::parse(base)` joined with `href` gives, as text, when both steps succeed;
/// it depends on the two strings alone.
pub uninterp spec fn url_joined(base: Seq<char>, href: Seq<char>) -> Option<Seq<char>>;

/// `Url::parse(s).is_ok()`.
#[verifier::external_body]
fn url_parses(s: &str) -> (r: bool)
    ensures
        r == url_is_valid(s@),
{
    url::Url::parse(s).is_ok()
}

/// `Url::as_str`: the text of a URL. A `Url` is opaque here, so nothing is claimed of it.
#[verifier::external_body]
fn url_text(url: &url::Url) -> String {
    url.as_str().to_string()
}

/// `Url::parse(base)` then `Url::join(href)`, as text; `None` when either fails.
#[verifier::external_body]
fn url_join(base: &str, href: &str) -> (r: Option<String>)
    ensures
        match r {
            Some(s) => url_joined(base@, href@) == Some(s@),
            None => url_joined(base@, href@) is None,
        },
{
    url::Url::parse(base).and_then(|b| b.join(href)).ok().map(String::from)
}

/// The scheme of a URL's text: what comes before the first `:`.
pub open spec fn scheme_of(text: Seq<char>) -> Seq<char>
    decreases text.len(),
{
    if text.len() == 0 || text[0] == ':' {
        seq![]
    } else {
        seq![text[0]] + scheme_of(text.drop_first())
    }
}

/// The location to retrieve the stylesheet `href` from, given the text of the base URL:
/// `href` itself when it is an absolute URL; with a base URL, `href` with the base's scheme
/// when it starts with `//`, or `href` joined to the base when that succeeds; otherwise
/// `href`, taken as a local path.
pub open spec fn full_url_of(base: Option<Seq<char>>, href: Seq<char>) -> Seq<char> {
    if url_is_valid(href) {
        href
    } else {
        match base {
            Some(b) => if href.len() >= 2 && href[0] == '/' && href[1] == '/' {
                scheme_of(b) + ":"@ + href
            } else {
                match url_joined(b, href) {
                    Some(j) => j,
                    None => href,
                }
            },
            None => href,
        }
    }
}

/// The scheme of a URL's text.
pub fn scheme(text: &str) -> (r: String)
    ensures
        r@ == scheme_of(text@),
{
    let t = str_chars(text);
    let mut i: usize = 0;
    let mut out = String::new();
    assert(t@.subrange(0, t.len() as int) =~= t@);
    assert(out@ + scheme_of(t@) =~= scheme_of(t@));
    while i < t.len() && t[i] != ':'
        invariant
            i <= t.len(),
            t@ == text@,
            scheme_of(text@) == out@ + scheme_of(t@.subrange(i as int, t.len() as int)),
        decreases t.len() - i,
    {
        proof {
            let rest = t@.subrange(i as int, t.len() as int);
            assert(rest.drop_first() =~= t@.subrange(i + 1, t.len() as int));
        }
        string_push(&mut out, t[i]);
        i += 1;
        assert(out@ + scheme_of(t@.subrange(i as int, t.len() as int)) =~= scheme_of(text@));
    }
    proof {
        let rest = t@.subrange(i as int, t.len() as int);
        assert(scheme_of(rest) == Seq::<char>::empty());
        assert(out@ + Seq::<char>::empty() =~= out@);
    }
    out
}

/// The location to retrieve the stylesheet `href` from, given the text of the base URL.
pub fn full_url(base: Option<&str>, href: &str) -> (r: String)
    ensures
        r@ == full_url_of(
            match base {
                Some(b) => Some(b@),
                None => None,
            },
            href@,
        ),
{
    proof {
        reveal_strlit(":");
    }
    if url_parses(href) {
        return href.to_string();
    }
    match base {
        Some(b) => {
            let h = str_chars(href);
            let slashes = str_chars("//");
            proof {
                reveal_strlit("//");
                if h.len() >= 2 && h@[0] == '/' && h@[1] == '/' {
                    assert(h@.subrange(0, 2) =~= slashes@);
                }
            }
            if starts_with(&h, &slashes) {
                assert(h@[0] == h@.subrange(0, 2)[0] && h@[1] == h@.subrange(0, 2)[1]);
                let mut out = scheme(b);
                push_str(&mut out, ":");
                push_str(&mut out, href);
                return out;
            }
            match url_join(b, href) {
                Some(joined) => joined,
                None => href.to_string(),
            }
        },
        None => href.to_string(),
    }
}

/// The text of the base URL, if there is one.
pub fn base_text(base_url: &Option<url::Url>) -> (r: Option<String>)
    ensures
        r is Some == base_url is Some,
{
    match base_url {
        Some(base) => Some(url_text(base)),
        None => None,
    }
}

/// The location to retrieve the stylesheet `href` from: `href` itself when it is an absolute
/// URL; with a base URL, `href` with the base's scheme when it starts with `//`, or `href`
/// joined to the base; otherwise `href`, taken as a local path.
pub fn get_full_url(base_url: &Option<url::Url>, href: &str) -> (r: String)
    ensures
        base_url is None ==> r@ == full_url_of(None, href@),
        base_url is Some ==> exists|base: Seq<char>| r@ == full_url_of(Some(base), href@),
{
    match base_url {
        Some(base) => {
            let text = url_text(base);
            full_url(Some(text.as_str()), href)
        },
        None => full_url(None, href),
    }
}

} // verus!
